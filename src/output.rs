use vstd::prelude::*;

verus! {

/// Width of the ordinal in an output file name.
pub const ORDINAL_WIDTH: usize = 9;

/// The decimal digits of `i` as ASCII, most significant first, without
/// leading zeros.
pub open spec fn decimal(i: nat) -> Seq<u8>
    decreases i,
{
    if i < 10 {
        seq![(48 + i) as u8]
    } else {
        decimal(i / 10).push((48 + i % 10) as u8)
    }
}

/// `s` with ASCII zeros in front, up to `width` bytes.
pub open spec fn zero_padded(s: Seq<u8>, width: nat) -> Seq<u8> {
    if s.len() >= width {
        s
    } else {
        Seq::new((width - s.len()) as nat, |k: int| 48u8) + s
    }
}

/// The ordinal of the output frame at `position`: its decimal digits,
/// padded with zeros to `ORDINAL_WIDTH`, so that the names sort in
/// sequence order.
pub fn ordinal_digits(position: u64) -> (r: Vec<u8>)
    ensures
        r@ == zero_padded(decimal(position as nat), ORDINAL_WIDTH as nat),
{
    let mut x: u64 = position;
    let mut acc: Vec<u8> = Vec::new();
    while x >= 10
        invariant
            decimal(position as nat) == decimal(x as nat) + acc@,
        decreases x,
    {
        let d: u8 = (x % 10) as u8;
        let ghost before = acc@;
        acc.insert(0, 48 + d);
        assert(decimal(x as nat) == decimal((x / 10) as nat).push((48 + x % 10) as u8));
        assert(decimal(x as nat) + before =~= decimal((x / 10) as nat) + acc@);
        x = x / 10;
    }
    let ghost mid = acc@;
    acc.insert(0, 48 + x as u8);
    assert(acc@ =~= decimal(x as nat) + mid);
    let mut r = acc;
    while r.len() < ORDINAL_WIDTH
        invariant
            r@.len() <= ORDINAL_WIDTH || r@ == decimal(position as nat),
            zero_padded(decimal(position as nat), ORDINAL_WIDTH as nat) == zero_padded(
                r@,
                ORDINAL_WIDTH as nat,
            ),
        decreases ORDINAL_WIDTH - r.len(),
    {
        let ghost before = r@;
        r.insert(0, 48);
        assert(zero_padded(before, ORDINAL_WIDTH as nat) =~= zero_padded(r@, ORDINAL_WIDTH as nat));
    }
    r
}

} // verus!

use vstd::prelude::*;

verus! {

/// Absolute difference of two channel values.
pub open spec fn channel_diff(a: u8, b: u8) -> int {
    if a >= b {
        a - b
    } else {
        b - a
    }
}

/// Dissimilarity of two RGBA pixels: the red, green and blue differences,
/// alpha left out.
pub open spec fn pixel_diff(p: [u8; 4], q: [u8; 4]) -> int {
    channel_diff(p[0], q[0]) + channel_diff(p[1], q[1]) + channel_diff(p[2], q[2])
}

/// Dissimilarity of two pixels (red, green and blue channels).
pub fn diff_rgba3(rgba1: [u8; 4], rgba2: [u8; 4]) -> (r: u32)
    ensures
        r == pixel_diff(rgba1, rgba2),
        r <= 765,
{
    let r = abs_diff(rgba1[0], rgba2[0]) + abs_diff(rgba1[1], rgba2[1]) + abs_diff(
        rgba1[2],
        rgba2[2],
    );
    r
}

fn abs_diff(a: u8, b: u8) -> (r: u32)
    ensures
        r == channel_diff(a, b),
        r <= 255,
{
    if a >= b {
        (a - b) as u32
    } else {
        (b - a) as u32
    }
}

/// Sum of the pixel dissimilarities over the first `k` positions.
pub open spec fn prefix_diff(p: Seq<[u8; 4]>, q: Seq<[u8; 4]>, k: int) -> int
    decreases k,
{
    if k <= 0 {
        0
    } else {
        prefix_diff(p, q, k - 1) + pixel_diff(p[k - 1], q[k - 1])
    }
}

/// Dissimilarity of two equally long pixel buffers: the sum over every
/// position of the pixel dissimilarity.
pub open spec fn total_diff(p: Seq<[u8; 4]>, q: Seq<[u8; 4]>) -> int {
    prefix_diff(p, q, p.len() as int)
}

proof fn lemma_prefix_diff_bounds(p: Seq<[u8; 4]>, q: Seq<[u8; 4]>, k: int)
    requires
        0 <= k,
    ensures
        0 <= prefix_diff(p, q, k) <= 765 * k,
    decreases k,
{
    if k > 0 {
        lemma_prefix_diff_bounds(p, q, k - 1);
    }
}

proof fn lemma_prefix_diff_symmetric(p: Seq<[u8; 4]>, q: Seq<[u8; 4]>, k: int)
    ensures
        prefix_diff(p, q, k) == prefix_diff(q, p, k),
    decreases k,
{
    if k > 0 {
        lemma_prefix_diff_symmetric(p, q, k - 1);
    }
}

/// The dissimilarity of two buffers does not depend on their order.
pub proof fn lemma_total_diff_symmetric(p: Seq<[u8; 4]>, q: Seq<[u8; 4]>)
    requires
        p.len() == q.len(),
    ensures
        total_diff(p, q) == total_diff(q, p),
{
    lemma_prefix_diff_symmetric(p, q, p.len() as int);
}

/// A buffer differs from itself by nothing.
pub proof fn lemma_total_diff_self(p: Seq<[u8; 4]>)
    ensures
        total_diff(p, p) == 0,
{
    lemma_prefix_diff_self(p, p.len() as int);
}

proof fn lemma_prefix_diff_self(p: Seq<[u8; 4]>, k: int)
    ensures
        prefix_diff(p, p, k) == 0,
    decreases k,
{
    if k > 0 {
        lemma_prefix_diff_self(p, k - 1);
    }
}

/// Dissimilarity of two pixel buffers of the same size.
pub fn frame_diff(pix1: &Vec<[u8; 4]>, pix2: &Vec<[u8; 4]>) -> (r: u128)
    requires
        pix1.len() == pix2.len(),
    ensures
        r == total_diff(pix1@, pix2@),
        r <= 765 * pix1.len(),
{
    let mut accum: u128 = 0;
    let mut k: usize = 0;
    while k < pix1.len()
        invariant
            pix1.len() == pix2.len(),
            k <= pix1.len(),
            accum == prefix_diff(pix1@, pix2@, k as int),
        decreases pix1.len() - k,
    {
        proof {
            lemma_prefix_diff_bounds(pix1@, pix2@, k as int);
        }
        assert(765 * (k as int) <= 765 * 0x1_0000_0000_0000_0000) by (nonlinear_arith)
            requires
                k < 0x1_0000_0000_0000_0000,
        ;
        let d = diff_rgba3(pix1[k], pix2[k]);
        accum = accum + d as u128;
        k = k + 1;
    }
    proof {
        lemma_prefix_diff_bounds(pix1@, pix2@, k as int);
    }
    accum
}

/// Scale of the threshold: a threshold of this many units is 100 percent.
pub const THRESHOLD_SCALE: u64 = 1_000_000;

/// The largest dissimilarity allowed between neighbours, in the units of
/// `total_diff`, for a threshold given in millionths of the maximal
/// difference (`THRESHOLD_SCALE` stands for 100 percent) and frames of
/// `pixel_count` pixels.
pub open spec fn limit_of(threshold: u32, pixel_count: u64) -> int {
    (threshold as int * 765 * pixel_count as int) / (THRESHOLD_SCALE as int)
}

/// Converts a threshold to a bound on raw dissimilarity. A score exceeds the
/// returned bound exactly when its percentage of the maximal difference
/// exceeds the threshold's.
pub fn diff_limit(threshold: u32, pixel_count: u64) -> (r: u128)
    ensures
        r == limit_of(threshold, pixel_count),
        forall|s: int|
            #![trigger s * (THRESHOLD_SCALE as int)]
            s > r <==> s * (THRESHOLD_SCALE as int) > threshold as int * 765 * pixel_count as int,
{
    assert(threshold as int * 765 * pixel_count as int <= 0xffff_ffff * 765
        * 0xffff_ffff_ffff_ffff) by (nonlinear_arith)
        requires
            threshold <= 0xffff_ffff,
            pixel_count <= 0xffff_ffff_ffff_ffff,
    ;
    let x: u128 = threshold as u128 * 765 * pixel_count as u128;
    let r = x / (THRESHOLD_SCALE as u128);
    assert forall|s: int|
        #![trigger s * (THRESHOLD_SCALE as int)]
        s > r <==> s * (THRESHOLD_SCALE as int) > x by {
        lemma_exceeds_floor(s, x as int, THRESHOLD_SCALE as int);
    }
    r
}

proof fn lemma_exceeds_floor(s: int, x: int, d: int)
    requires
        d > 0,
        x >= 0,
    ensures
        s > x / d <==> s * d > x,
{
    vstd::arithmetic::div_mod::lemma_fundamental_div_mod(x, d);
    let q = x / d;
    let m = x % d;
    assert(s > q <==> s * d > x) by (nonlinear_arith)
        requires
            x == d * q + m,
            0 <= m < d,
            d > 0,
    ;
}

} // verus!

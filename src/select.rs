use vstd::prelude::*;

verus! {

/// Position of the longest chain among the first `k`, the earliest among
/// equals; 0 where all of them are empty.
pub open spec fn longest_prefix(chains: Seq<Seq<usize>>, k: int) -> int
    decreases k,
{
    if k <= 0 {
        0
    } else {
        let pos = longest_prefix(chains, k - 1);
        if chains[k - 1].len() > chains[pos].len() {
            k - 1
        } else {
            pos
        }
    }
}

/// Position of the longest chain, the first produced among equals.
pub open spec fn longest_index(chains: Seq<Seq<usize>>) -> int {
    longest_prefix(chains, chains.len() as int)
}

/// What `longest_prefix` picks: a chain at least as long as every other in
/// the range, and strictly longer than each before it.
pub proof fn lemma_longest_prefix(chains: Seq<Seq<usize>>, k: int)
    requires
        1 <= k <= chains.len(),
    ensures
        0 <= longest_prefix(chains, k) < k,
        forall|j: int|
            0 <= j < k ==> (#[trigger] chains[j]).len() <= chains[longest_prefix(chains, k)].len(),
        forall|j: int|
            0 <= j < longest_prefix(chains, k) ==> (#[trigger] chains[j]).len() < chains[longest_prefix(
                chains,
                k,
            )].len(),
    decreases k,
{
    if k > 1 {
        lemma_longest_prefix(chains, k - 1);
    } else {
        assert(longest_prefix(chains, 0) == 0);
    }
}

/// Copies out the longest chain; among chains of equal length the first.
pub fn get_biggest_sequence(sequences: &Vec<Vec<usize>>) -> (r: Vec<usize>)
    requires
        sequences.len() > 0,
    ensures
        r@ == sequences@[longest_index(sequences@.map_values(|c: Vec<usize>| c@))]@,
        forall|j: int| 0 <= j < sequences.len() ==> (#[trigger] sequences@[j]@).len() <= r.len(),
        exists|k: int|
            0 <= k < sequences.len() && sequences@[k]@ == r@ && forall|j: int|
                0 <= j < k ==> (#[trigger] sequences@[j]@).len() < r.len(),
{
    let ghost cs = sequences@.map_values(|c: Vec<usize>| c@);
    let mut position_longest: usize = 0;
    let mut longest: usize = 0;
    let mut i: usize = 0;
    while i < sequences.len()
        invariant
            cs == sequences@.map_values(|c: Vec<usize>| c@),
            i <= sequences.len(),
            position_longest == longest_prefix(cs, i as int),
            i > 0 ==> position_longest < i && longest == sequences@[position_longest as int]@.len(),
            i == 0 ==> longest == 0,
        decreases sequences.len() - i,
    {
        assert(cs[i as int] == sequences@[i as int]@);
        if sequences[i].len() > longest {
            position_longest = i;
            longest = sequences[i].len();
        }
        i = i + 1;
    }
    let chosen = &sequences[position_longest];
    let mut r: Vec<usize> = Vec::new();
    let mut k: usize = 0;
    while k < chosen.len()
        invariant
            k <= chosen.len(),
            r@ == chosen@.take(k as int),
        decreases chosen.len() - k,
    {
        r.push(chosen[k]);
        k = k + 1;
        assert(r@ =~= chosen@.take(k as int));
    }
    proof {
        assert(r@ =~= chosen@);
        lemma_longest_prefix(cs, cs.len() as int);
        assert forall|j: int| 0 <= j < sequences.len() implies (#[trigger] sequences@[j]@).len()
            <= r.len() by {
            assert(cs[j] == sequences@[j]@);
        }
        assert forall|j: int| 0 <= j < position_longest implies (#[trigger] sequences@[j]@).len()
            < r.len() by {
            assert(cs[j] == sequences@[j]@);
        }
    }
    r
}

/// The chain in the opposite order.
pub fn reverse_order(x: &Vec<usize>) -> (r: Vec<usize>)
    ensures
        r@ == x@.reverse(),
{
    let mut r: Vec<usize> = Vec::new();
    let mut k: usize = x.len();
    while k > 0
        invariant
            k <= x.len(),
            r.len() == x.len() - k,
            forall|j: int| 0 <= j < r.len() ==> #[trigger] r@[j] == x@[x.len() - 1 - j],
        decreases k,
    {
        k = k - 1;
        r.push(x[k]);
    }
    assert(r@ =~= x@.reverse());
    r
}

/// Reversing twice gives back the original order.
pub proof fn lemma_reverse_reverse(x: Seq<usize>)
    ensures
        x.reverse().reverse() == x,
{
    assert(x.reverse().reverse() =~= x);
}

} // verus!

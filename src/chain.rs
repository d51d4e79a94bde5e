use vstd::prelude::*;
use crate::matrix::{is_square, is_symmetric, matrix_view};

verus! {

/// The index picked by scanning the first `k` entries of `row`: the lowest
/// index of least score among those that are unused and not `prev`.
pub open spec fn scan_best(row: Seq<u128>, used: Seq<bool>, prev: int, k: int) -> Option<int>
    decreases k,
{
    if k <= 0 {
        None
    } else {
        let b = scan_best(row, used, prev, k - 1);
        let c = k - 1;
        if c == prev || used[c] {
            b
        } else {
            match b {
                None => Some(c),
                Some(i) => if row[c] < row[i] {
                    Some(c)
                } else {
                    b
                },
            }
        }
    }
}

/// The nearest unused neighbour of `prev` in the matrix, if any frame is
/// left unused.
pub open spec fn best_successor(m: Seq<Seq<u128>>, used: Seq<bool>, prev: int) -> Option<int> {
    scan_best(m[prev], used, prev, used.len() as int)
}

/// What `scan_best` picks: an unused index other than `prev`, of least
/// score, the lowest among equals; nothing only where no such index exists.
pub proof fn lemma_scan_best(row: Seq<u128>, used: Seq<bool>, prev: int, k: int)
    requires
        0 <= k <= used.len(),
        row.len() == used.len(),
    ensures
        match scan_best(row, used, prev, k) {
            None => forall|j: int| 0 <= j < k ==> j == prev || #[trigger] used[j],
            Some(b) => {
                &&& 0 <= b < k
                &&& b != prev
                &&& !used[b]
                &&& forall|j: int|
                    0 <= j < k && j != prev && !used[j] ==> row[b] <= #[trigger] row[j]
                &&& forall|j: int|
                    0 <= j < b && j != prev && !used[j] ==> row[b] < #[trigger] row[j]
            },
        },
    decreases k,
{
    if k > 0 {
        lemma_scan_best(row, used, prev, k - 1);
    }
}

/// Finds the nearest unused neighbour of `prev` and its score.
pub fn get_succ(prev: usize, percents: &Vec<Vec<u128>>, used: &Vec<bool>) -> (r: Option<(usize, u128)>)
    requires
        prev < used.len(),
        is_square(matrix_view(percents), used.len() as int),
    ensures
        match r {
            None => best_successor(matrix_view(percents), used@, prev as int) is None,
            Some((i, s)) => best_successor(matrix_view(percents), used@, prev as int) == Some(
                i as int,
            ) && s == matrix_view(percents)[prev as int][i as int],
        },
        r is None <==> forall|j: int| 0 <= j < used.len() ==> j == prev || #[trigger] used@[j],
        r is Some ==> r->Some_0.0 != prev && r->Some_0.0 < used.len() && !used@[r->Some_0.0 as int],
        r is Some ==> forall|j: int|
            0 <= j < r->Some_0.0 && j != prev && !used@[j] ==> r->Some_0.1
                < #[trigger] matrix_view(percents)[prev as int][j],
{
    let ghost mv = matrix_view(percents);
    let n = used.len();
    let row = &percents[prev];
    assert(row@ == mv[prev as int]);
    let mut best: Option<(usize, u128)> = None;
    let mut k: usize = 0;
    while k < n
        invariant
            n == used.len(),
            k <= n,
            row@ == mv[prev as int],
            row.len() == n,
            match best {
                None => scan_best(row@, used@, prev as int, k as int) is None,
                Some((b, s)) => scan_best(row@, used@, prev as int, k as int) == Some(b as int)
                    && s == row@[b as int] && b < n,
            },
        decreases n - k,
    {
        if k != prev && !used[k] {
            match best {
                None => {
                    best = Some((k, row[k]));
                },
                Some((_, s)) => {
                    if row[k] < s {
                        best = Some((k, row[k]));
                    }
                },
            }
        }
        k = k + 1;
    }
    proof {
        lemma_scan_best(row@, used@, prev as int, n as int);
    }
    best
}

/// How many frames are still unused.
pub open spec fn count_unused(used: Seq<bool>) -> nat
    decreases used.len(),
{
    if used.len() == 0 {
        0
    } else {
        count_unused(used.drop_last()) + if used.last() {
            0nat
        } else {
            1nat
        }
    }
}

proof fn lemma_count_mark(used: Seq<bool>, i: int)
    requires
        0 <= i < used.len(),
        !used[i],
    ensures
        count_unused(used.update(i, true)) + 1 == count_unused(used),
    decreases used.len(),
{
    if i == used.len() - 1 {
        assert(used.update(i, true).drop_last() =~= used.drop_last());
    } else {
        assert(used.update(i, true).drop_last() =~= used.drop_last().update(i, true));
        lemma_count_mark(used.drop_last(), i);
    }
}

proof fn lemma_count_le_len(used: Seq<bool>)
    ensures
        count_unused(used) <= used.len(),
    decreases used.len(),
{
    if used.len() > 0 {
        lemma_count_le_len(used.drop_last());
    }
}

/// Every pair of neighbours in `c` scores at most `limit`.
pub open spec fn links_within(m: Seq<Seq<u128>>, c: Seq<usize>, limit: int) -> bool {
    forall|k: int| 0 <= k < c.len() - 1 ==> #[trigger] m[c[k] as int][c[k + 1] as int] <= limit
}

/// Every two distinct frames among the first `n` score at most `limit`.
pub open spec fn all_within(m: Seq<Seq<u128>>, n: int, limit: int) -> bool {
    forall|i: int, j: int| 0 <= i < n && 0 <= j < n && i != j ==> #[trigger] m[i][j] <= limit
}

/// All scores off the diagonal among the first `n` frames are equal.
pub open spec fn off_diagonal_equal(m: Seq<Seq<u128>>, n: int) -> bool {
    forall|i: int, j: int, k: int, l: int|
        0 <= i < n && 0 <= j < n && 0 <= k < n && 0 <= l < n && i != j && k != l ==> #[trigger] m[i][j]
            == #[trigger] m[k][l]
}

/// The indices `0, 1, ..., n - 1` in ascending order.
pub open spec fn ascending(n: nat) -> Seq<usize> {
    Seq::new(n, |k: int| k as usize)
}

/// Forward growth: while the last frame has an unused nearest neighbour
/// within `limit`, append it and mark it used. `fuel` bounds the steps.
pub open spec fn grow_forward(
    m: Seq<Seq<u128>>,
    used: Seq<bool>,
    chain: Seq<usize>,
    limit: int,
    fuel: nat,
) -> (Seq<usize>, Seq<bool>)
    decreases fuel,
{
    if fuel == 0 || chain.len() == 0 {
        (chain, used)
    } else {
        let last = chain.last() as int;
        match best_successor(m, used, last) {
            None => (chain, used),
            Some(s) => if m[last][s] > limit {
                (chain, used)
            } else {
                grow_forward(m, used.update(s, true), chain.push(s as usize), limit, (fuel - 1) as nat)
            },
        }
    }
}

/// Backward growth: the same from the first frame, prepending.
pub open spec fn grow_backward(
    m: Seq<Seq<u128>>,
    used: Seq<bool>,
    chain: Seq<usize>,
    limit: int,
    fuel: nat,
) -> (Seq<usize>, Seq<bool>)
    decreases fuel,
{
    if fuel == 0 || chain.len() == 0 {
        (chain, used)
    } else {
        let first = chain[0] as int;
        match best_successor(m, used, first) {
            None => (chain, used),
            Some(s) => if m[first][s] > limit {
                (chain, used)
            } else {
                grow_backward(
                    m,
                    used.update(s, true),
                    seq![s as usize] + chain,
                    limit,
                    (fuel - 1) as nat,
                )
            },
        }
    }
}

/// The chain grown from `seed` and the usage flags after it: forward growth
/// from the seed alone, then backward growth.
pub open spec fn chain_from(m: Seq<Seq<u128>>, used: Seq<bool>, seed: int, limit: int) -> (
    Seq<usize>,
    Seq<bool>,
) {
    let f = grow_forward(m, used.update(seed, true), seq![seed as usize], limit, used.len());
    grow_backward(m, f.1, f.0, limit, used.len())
}

/// What holds of a chain `c` grown from flags `u0` to flags `u`: its frames
/// are distinct, were unused and are now exactly the newly used ones, and
/// neighbours in it score at most `limit`.
pub open spec fn grown_from(
    m: Seq<Seq<u128>>,
    u0: Seq<bool>,
    u: Seq<bool>,
    c: Seq<usize>,
    limit: int,
) -> bool {
    &&& u.len() == u0.len()
    &&& c.len() >= 1
    &&& c.no_duplicates()
    &&& forall|k: int| 0 <= k < c.len() ==> (#[trigger] c[k]) < u0.len() && !u0[c[k] as int]
    &&& forall|i: int| 0 <= i < u0.len() ==> #[trigger] u[i] == (u0[i] || c.contains(i as usize))
    &&& count_unused(u) + c.len() == count_unused(u0)
    &&& links_within(m, c, limit)
}

proof fn lemma_push_contains(s: Seq<usize>, x: usize, y: usize)
    ensures
        s.push(x).contains(y) <==> (s.contains(y) || y == x),
{
    if s.contains(y) {
        let k = choose|k: int| 0 <= k < s.len() && s[k] == y;
        assert(s.push(x)[k] == y);
    }
    if y == x {
        assert(s.push(x)[s.len() as int] == x);
    }
    if s.push(x).contains(y) {
        let k = choose|k: int| 0 <= k < s.len() + 1 && s.push(x)[k] == y;
        if k < s.len() {
            assert(s[k] == y);
        }
    }
}

proof fn lemma_prepend_contains(s: Seq<usize>, x: usize, y: usize)
    ensures
        (seq![x] + s).contains(y) <==> (s.contains(y) || y == x),
{
    let t = seq![x] + s;
    if s.contains(y) {
        let k = choose|k: int| 0 <= k < s.len() && s[k] == y;
        assert(t[k + 1] == y);
    }
    if y == x {
        assert(t[0] == x);
    }
    if t.contains(y) {
        let k = choose|k: int| 0 <= k < t.len() && t[k] == y;
        if k > 0 {
            assert(s[k - 1] == y);
        }
    }
}

/// A chain `0, 1, ..., len - 1` grown from all-unused flags holds every
/// used frame and nothing else.
proof fn lemma_ascending_used(c: Seq<usize>, n: nat, u: Seq<bool>, u0: Seq<bool>, i: int)
    requires
        c == ascending(c.len() as nat),
        1 <= c.len() <= usize::MAX,
        n <= usize::MAX,
        u.len() == n,
        u0.len() == n,
        forall|j: int| 0 <= j < n ==> !(#[trigger] u0[j]),
        forall|j: int| 0 <= j < n ==> #[trigger] u[j] == (u0[j] || c.contains(j as usize)),
        forall|k: int| 0 <= k < c.len() ==> (#[trigger] c[k]) < n,
        0 <= i < n,
    ensures
        u[i] == (i < c.len()),
        c.len() <= n,
{
    assert(c[c.len() - 1] == (c.len() - 1) as usize);
    assert(c[0] == 0);
    if i < c.len() {
        assert(c[i] == i as usize);
    }
    if c.contains(i as usize) {
        let k = choose|k: int| 0 <= k < c.len() && c[k] == i as usize;
        assert(c[k] == k as usize);
    }
}

/// Where every frame but the chain's own is used, an ascending chain holds
/// them all.
proof fn lemma_ascending_full(c: Seq<usize>, n: nat, u: Seq<bool>, u0: Seq<bool>)
    requires
        c == ascending(c.len() as nat),
        1 <= c.len() <= usize::MAX,
        n <= usize::MAX,
        u.len() == n,
        u0.len() == n,
        forall|j: int| 0 <= j < n ==> !(#[trigger] u0[j]),
        forall|j: int| 0 <= j < n ==> #[trigger] u[j] == (u0[j] || c.contains(j as usize)),
        forall|k: int| 0 <= k < c.len() ==> (#[trigger] c[k]) < n,
        forall|j: int| 0 <= j < n ==> j == c.len() - 1 || #[trigger] u[j],
    ensures
        c == ascending(n),
{
    assert(c[0] == 0);
    lemma_ascending_used(c, n, u, u0, 0);
    if c.len() < n {
        lemma_ascending_used(c, n, u, u0, c.len() as int);
    }
}

/// With equal scores, the successor of an ascending chain is the next index.
proof fn lemma_ascending_next(
    c: Seq<usize>,
    n: nat,
    u: Seq<bool>,
    u0: Seq<bool>,
    m: Seq<Seq<u128>>,
    prev: int,
    succ: int,
)
    requires
        c == ascending(c.len() as nat),
        1 <= c.len() <= usize::MAX,
        n <= usize::MAX,
        prev == c[c.len() - 1],
        u.len() == n,
        u0.len() == n,
        forall|j: int| 0 <= j < n ==> !(#[trigger] u0[j]),
        forall|j: int| 0 <= j < n ==> #[trigger] u[j] == (u0[j] || c.contains(j as usize)),
        forall|k: int| 0 <= k < c.len() ==> (#[trigger] c[k]) < n,
        off_diagonal_equal(m, n as int),
        0 <= succ < n,
        succ != prev,
        !u[succ],
        forall|j: int| 0 <= j < succ && j != prev && !u[j] ==> m[prev][succ] < #[trigger] m[prev][j],
    ensures
        succ == c.len(),
{
    lemma_ascending_used(c, n, u, u0, succ);
    if succ > c.len() {
        let l = c.len() as int;
        lemma_ascending_used(c, n, u, u0, l);
        assert(m[prev][succ] < m[prev][l]);
        assert(m[prev][succ] == m[prev][l]);
    }
}

/// Grows one chain from `start` (step 1: the seed alone, marked used;
/// step 2: forward growth; step 3: backward growth) and marks every frame
/// it takes as used. Growth stops where the nearest unused neighbour scores
/// above `threshold`, or no frame is left unused.
pub fn build_sequence(
    start: usize,
    used: &mut Vec<bool>,
    percents: &Vec<Vec<u128>>,
    threshold: u128,
) -> (r: Vec<usize>)
    requires
        start < old(used).len(),
        !old(used)@[start as int],
        is_square(matrix_view(percents), old(used).len() as int),
        is_symmetric(matrix_view(percents)),
    ensures
        (r@, final(used)@) == chain_from(
            matrix_view(percents),
            old(used)@,
            start as int,
            threshold as int,
        ),
        r@.contains(start),
        grown_from(matrix_view(percents), old(used)@, final(used)@, r@, threshold as int),
        all_within(matrix_view(percents), old(used).len() as int, threshold as int) ==> forall|
            i: int,
        |
            0 <= i < old(used).len() ==> #[trigger] final(used)@[i],
        start == 0 && (forall|i: int| 0 <= i < old(used).len() ==> !(#[trigger] old(used)@[i]))
            && off_diagonal_equal(matrix_view(percents), old(used).len() as int) && all_within(
            matrix_view(percents),
            old(used).len() as int,
            threshold as int,
        ) ==> r@ == ascending(old(used).len() as nat),
{
    let ghost mv = matrix_view(percents);
    let ghost u0 = used@;
    let ghost n: nat = used.len() as nat;
    let ghost limit = threshold as int;
    let mut sequence: Vec<usize> = Vec::new();
    sequence.push(start);
    used.set(start, true);
    proof {
        lemma_count_mark(u0, start as int);
        lemma_count_le_len(used@);
        assert(sequence@[0] == start);
        assert forall|i: int| 0 <= i < n implies #[trigger] used@[i] == (u0[i]
            || sequence@.contains(i as usize)) by {
            if i == start {
                assert(sequence@[0] == i as usize);
            }
        }
    }
    let ghost asc = start == 0 && (forall|i: int| 0 <= i < n ==> !(#[trigger] u0[i]))
        && off_diagonal_equal(mv, n as int) && all_within(mv, n as int, limit);
    proof {
        if asc {
            assert(sequence@ =~= ascending(1));
        }
    }
    let ghost u1 = used@;
    let ghost s1 = sequence@;
    let ghost mut fuel: nat = n;
    loop
        invariant
            used.len() == n,
            is_square(mv, n as int),
            is_symmetric(mv),
            mv == matrix_view(percents),
            limit == threshold as int,
            sequence@.contains(start),
            grown_from(mv, u0, used@, sequence@, limit),
            fuel >= count_unused(used@),
            grow_forward(mv, u1, s1, limit, n) == grow_forward(mv, used@, sequence@, limit, fuel),
            asc == (start == 0 && (forall|i: int| 0 <= i < n ==> !(#[trigger] u0[i]))
                && off_diagonal_equal(mv, n as int) && all_within(mv, n as int, limit)),
            asc ==> sequence@ == ascending(sequence.len() as nat),
        ensures
            grow_forward(mv, u1, s1, limit, n) == (sequence@, used@),
            all_within(mv, n as int, limit) ==> forall|i: int| 0 <= i < n ==> #[trigger] used@[i],
            asc ==> sequence@ == ascending(n),
        decreases count_unused(used@),
    {
        let prev = sequence[sequence.len() - 1];
        match get_succ(prev, percents, used) {
            None => {
                proof {
                    assert(sequence@[sequence.len() - 1] == prev);
                    assert(sequence@.contains(prev));
                    if asc {
                        lemma_ascending_full(sequence@, n, used@, u0);
                    }
                }
                break;
            },
            Some((succ, min_coef)) => {
                if min_coef > threshold {
                    proof {
                        lemma_count_mark(used@, succ as int);
                    }
                    break;
                }
                proof {
                    if asc {
                        lemma_ascending_next(sequence@, n, used@, u0, mv, prev as int, succ as int);
                        assert(sequence@.push(succ) =~= ascending((sequence.len() + 1) as nat));
                    }
                    lemma_count_mark(used@, succ as int);
                    lemma_push_contains(sequence@, succ, start);
                    assert forall|i: int| 0 <= i < n implies #[trigger] used@.update(
                        succ as int,
                        true,
                    )[i] == (u0[i] || sequence@.push(succ).contains(i as usize)) by {
                        lemma_push_contains(sequence@, succ, i as usize);
                    }
                    assert(!sequence@.contains(succ));
                    let t = sequence@.push(succ);
                    assert forall|k: int| 0 <= k < t.len() - 1 implies #[trigger] mv[t[k] as int][t[k
                        + 1] as int] <= limit by {
                        if k < sequence.len() - 1 {
                            assert(t[k] == sequence@[k] && t[k + 1] == sequence@[k + 1]);
                        } else {
                            assert(t[k] == prev && t[k + 1] == succ);
                        }
                    }
                    assert forall|a: int, b: int|
                        0 <= a < t.len() && 0 <= b < t.len() && a != b implies t[a] != t[b] by {
                        if a < sequence.len() && b < sequence.len() {
                            assert(sequence@[a] != sequence@[b]);
                        } else if a < sequence.len() {
                            assert(sequence@.contains(t[a]));
                        } else {
                            assert(sequence@.contains(t[b]));
                        }
                    }
                    fuel = (fuel - 1) as nat;
                }
                sequence.push(succ);
                used.set(succ, true);
            },
        }
    }
    let ghost uf = used@;
    let ghost sf = sequence@;
    let ghost mut fuel2: nat = n;
    proof {
        lemma_count_le_len(used@);
    }
    loop
        invariant
            used.len() == n,
            is_square(mv, n as int),
            is_symmetric(mv),
            mv == matrix_view(percents),
            limit == threshold as int,
            sequence@.contains(start),
            grown_from(mv, u0, used@, sequence@, limit),
            fuel2 >= count_unused(used@),
            asc == (start == 0 && (forall|i: int| 0 <= i < n ==> !(#[trigger] u0[i]))
                && off_diagonal_equal(mv, n as int) && all_within(mv, n as int, limit)),
            asc ==> sequence@ == ascending(n),
            all_within(mv, n as int, limit) ==> forall|i: int| 0 <= i < n ==> #[trigger] used@[i],
            grow_backward(mv, uf, sf, limit, n) == grow_backward(
                mv,
                used@,
                sequence@,
                limit,
                fuel2,
            ),
        ensures
            grow_backward(mv, uf, sf, limit, n) == (sequence@, used@),
            all_within(mv, n as int, limit) ==> forall|i: int| 0 <= i < n ==> #[trigger] used@[i],
        decreases count_unused(used@),
    {
        let prev = sequence[0];
        match get_succ(prev, percents, used) {
            None => {
                break;
            },
            Some((succ, min_coef)) => {
                if min_coef > threshold {
                    proof {
                        lemma_count_mark(used@, succ as int);
                    }
                    break;
                }
                proof {
                    lemma_count_mark(used@, succ as int);
                    lemma_prepend_contains(sequence@, succ, start);
                    assert forall|i: int| 0 <= i < n implies #[trigger] used@.update(
                        succ as int,
                        true,
                    )[i] == (u0[i] || (seq![succ] + sequence@).contains(i as usize)) by {
                        lemma_prepend_contains(sequence@, succ, i as usize);
                    }
                    assert(!sequence@.contains(succ));
                    let t = seq![succ] + sequence@;
                    assert forall|k: int| 0 <= k < t.len() - 1 implies #[trigger] mv[t[k] as int][t[k
                        + 1] as int] <= limit by {
                        if k > 0 {
                            assert(t[k] == sequence@[k - 1] && t[k + 1] == sequence@[k]);
                            assert(mv[sequence@[k - 1] as int][sequence@[(k - 1) + 1] as int]
                                <= limit);
                        } else {
                            assert(t[0] == succ && t[1] == prev);
                            assert(mv[prev as int][succ as int] == mv[succ as int][prev as int]);
                        }
                    }
                    assert forall|a: int, b: int|
                        0 <= a < t.len() && 0 <= b < t.len() && a != b implies t[a] != t[b] by {
                        if a > 0 && b > 0 {
                            assert(sequence@[a - 1] != sequence@[b - 1]);
                        } else if a > 0 {
                            assert(sequence@.contains(t[a]));
                        } else {
                            assert(sequence@.contains(t[b]));
                        }
                    }
                    fuel2 = (fuel2 - 1) as nat;
                }
                let ghost before = sequence@;
                sequence.insert(0, succ);
                used.set(succ, true);
                assert(sequence@ =~= seq![succ] + before);
            },
        }
    }
    sequence
}

/// The lowest unused index at or after `k`.
pub open spec fn first_unused_from(used: Seq<bool>, k: int) -> Option<int>
    decreases used.len() - k,
{
    if k < 0 || k >= used.len() {
        None
    } else if !used[k] {
        Some(k)
    } else {
        first_unused_from(used, k + 1)
    }
}

/// Chains grown one after another, each from the lowest unused frame,
/// until every frame is used. `fuel` bounds the number of chains.
pub open spec fn chains_from(m: Seq<Seq<u128>>, used: Seq<bool>, limit: int, fuel: nat) -> Seq<
    Seq<usize>,
>
    decreases fuel,
{
    if fuel == 0 {
        seq![]
    } else {
        match first_unused_from(used, 0) {
            None => seq![],
            Some(seed) => {
                let c = chain_from(m, used, seed, limit);
                seq![c.0] + chains_from(m, c.1, limit, (fuel - 1) as nat)
            },
        }
    }
}

/// The chains that partition `n` frames, all unused at the start.
pub open spec fn partition_of(m: Seq<Seq<u128>>, n: nat, limit: int) -> Seq<Seq<usize>> {
    chains_from(m, Seq::new(n, |i: int| false), limit, n)
}

/// Every index below `n` lies in exactly one chain, once, and in no other.
pub open spec fn is_partition(chains: Seq<Seq<usize>>, n: int) -> bool {
    &&& forall|c: int| 0 <= c < chains.len() ==> (#[trigger] chains[c]).no_duplicates()
    &&& forall|c: int| 0 <= c < chains.len() ==> (#[trigger] chains[c]).len() >= 1
    &&& forall|c: int, k: int|
        0 <= c < chains.len() && 0 <= k < chains[c].len() ==> #[trigger] chains[c][k] < n
    &&& forall|c1: int, c2: int, k1: int, k2: int|
        0 <= c1 < chains.len() && 0 <= c2 < chains.len() && c1 != c2 && 0 <= k1 < chains[c1].len()
            && 0 <= k2 < chains[c2].len() ==> #[trigger] chains[c1][k1] != #[trigger] chains[c2][k2]
    &&& forall|i: int| 0 <= i < n ==> #[trigger] in_some_chain(chains, i)
}

/// Some chain holds index `i`.
pub open spec fn in_some_chain(chains: Seq<Seq<usize>>, i: int) -> bool {
    exists|c: int| 0 <= c < chains.len() && #[trigger] chains[c].contains(i as usize)
}

/// Lowest unused index, as `first_unused_from(used, 0)` gives it.
fn first_unused(used: &Vec<bool>) -> (r: Option<usize>)
    ensures
        match r {
            None => first_unused_from(used@, 0) is None,
            Some(i) => first_unused_from(used@, 0) == Some(i as int),
        },
        r is None ==> forall|i: int| 0 <= i < used.len() ==> #[trigger] used@[i],
        r is Some ==> r->Some_0 < used.len() && !used@[r->Some_0 as int],
        r is Some ==> forall|j: int| 0 <= j < r->Some_0 ==> #[trigger] used@[j],
{
    let mut k: usize = used.len();
    let mut found: Option<usize> = None;
    while k > 0
        invariant
            k <= used.len(),
            match found {
                None => first_unused_from(used@, k as int) is None,
                Some(i) => first_unused_from(used@, k as int) == Some(i as int),
            },
            found is None ==> forall|i: int| k <= i < used.len() ==> #[trigger] used@[i],
            found is Some ==> found->Some_0 < used.len() && !used@[found->Some_0 as int],
            found is Some ==> forall|j: int| k <= j < found->Some_0 ==> #[trigger] used@[j],
        decreases k,
    {
        k = k - 1;
        if !used[k] {
            found = Some(k);
        }
    }
    found
}

/// Splits all frames into chains: repeatedly grows a chain from the lowest
/// unused frame until none is left.
pub fn build_sequences(percents: &Vec<Vec<u128>>, threshold: u128) -> (r: Vec<Vec<usize>>)
    requires
        is_square(matrix_view(percents), percents.len() as int),
        is_symmetric(matrix_view(percents)),
    ensures
        r@.map_values(|c: Vec<usize>| c@) == partition_of(
            matrix_view(percents),
            percents.len() as nat,
            threshold as int,
        ),
        is_partition(r@.map_values(|c: Vec<usize>| c@), percents.len() as int),
        forall|c: int|
            0 <= c < r.len() ==> links_within(matrix_view(percents), #[trigger] r@[c]@, threshold as int),
        percents.len() > 0 && all_within(
            matrix_view(percents),
            percents.len() as int,
            threshold as int,
        ) ==> r.len() == 1,
        percents.len() > 0 && off_diagonal_equal(matrix_view(percents), percents.len() as int)
            && all_within(matrix_view(percents), percents.len() as int, threshold as int) ==> r@[0]@
            == ascending(percents.len() as nat),
{
    let ghost mv = matrix_view(percents);
    let ghost limit = threshold as int;
    let n = percents.len();
    let mut used: Vec<bool> = Vec::new();
    let mut i: usize = 0;
    while i < n
        invariant
            i <= n,
            used@ == Seq::new(i as nat, |j: int| false),
        decreases n - i,
    {
        used.push(false);
        i = i + 1;
        assert(used@ =~= Seq::new(i as nat, |j: int| false));
    }
    let ghost u0 = used@;
    let mut sequences: Vec<Vec<usize>> = Vec::new();
    let ghost mut fuel: nat = n as nat;
    proof {
        lemma_count_le_len(used@);
    }
    loop
        invariant
            used.len() == n,
            is_square(mv, n as int),
            is_symmetric(mv),
            mv == matrix_view(percents),
            limit == threshold as int,
            fuel >= count_unused(used@),
            sequences.len() == 0 ==> forall|i: int| 0 <= i < n ==> !(#[trigger] used@[i]),
            all_within(mv, n as int, limit) ==> sequences.len() <= 1 && (sequences.len() == 1
                ==> forall|i: int| 0 <= i < n ==> #[trigger] used@[i]),
            off_diagonal_equal(mv, n as int) && all_within(mv, n as int, limit) && sequences.len()
                == 1 ==> sequences@[0]@ == ascending(n as nat),
            chains_from(mv, u0, limit, n as nat) == sequences@.map_values(|c: Vec<usize>| c@)
                + chains_from(mv, used@, limit, fuel),
            forall|c: int|
                0 <= c < sequences.len() ==> (#[trigger] sequences@[c]@).no_duplicates()
                    && sequences@[c]@.len() >= 1 && links_within(mv, sequences@[c]@, limit),
            forall|c: int, k: int|
                0 <= c < sequences.len() && 0 <= k < sequences@[c]@.len() ==> #[trigger] sequences@[c]@[k] < n
                    && used@[sequences@[c]@[k] as int],
            forall|c1: int, c2: int, k1: int, k2: int|
                0 <= c1 < sequences.len() && 0 <= c2 < sequences.len() && c1 != c2 && 0 <= k1
                    < sequences@[c1]@.len() && 0 <= k2 < sequences@[c2]@.len()
                    ==> #[trigger] sequences@[c1]@[k1] != #[trigger] sequences@[c2]@[k2],
            forall|i: int|
                0 <= i < n && #[trigger] used@[i] ==> exists|c: int|
                    0 <= c < sequences.len() && #[trigger] sequences@[c]@.contains(i as usize),
        ensures
            forall|i: int| 0 <= i < n ==> #[trigger] used@[i],
            chains_from(mv, used@, limit, fuel) == Seq::<Seq<usize>>::empty(),
            n > 0 ==> sequences.len() >= 1,
            all_within(mv, n as int, limit) ==> sequences.len() <= 1,
        decreases count_unused(used@),
    {
        match first_unused(&used) {
            None => {
                proof {
                    if n > 0 && sequences.len() == 0 {
                        assert(used@[0]);
                    }
                }
                break;
            },
            Some(start) => {
                let ghost before = used@;
                let ghost seqs_before = sequences@;
                proof {
                    lemma_count_mark(used@, start as int);
                    if sequences.len() == 0 && start > 0 {
                        assert(used@[0]);
                    }
                }
                let sequence = build_sequence(start, &mut used, percents, threshold);
                proof {
                    assert forall|c: int, k1: int, k2: int|
                        0 <= c < seqs_before.len() && 0 <= k1 < seqs_before[c]@.len() && 0 <= k2
                            < sequence@.len() implies seqs_before[c]@[k1] != sequence@[k2] by {
                        assert(before[seqs_before[c]@[k1] as int]);
                        assert(!before[sequence@[k2] as int]);
                    }
                    fuel = (fuel - 1) as nat;
                }
                sequences.push(sequence);
                proof {
                    let t = sequences@;
                    assert(t[t.len() - 1]@ == sequence@);
                    assert forall|c1: int, c2: int, k1: int, k2: int|
                        0 <= c1 < t.len() && 0 <= c2 < t.len() && c1 != c2 && 0 <= k1
                            < t[c1]@.len() && 0 <= k2 < t[c2]@.len() implies t[c1]@[k1]
                        != t[c2]@[k2] by {
                        if c1 < seqs_before.len() && c2 < seqs_before.len() {
                            assert(seqs_before[c1]@[k1] != seqs_before[c2]@[k2]);
                        } else if c1 < seqs_before.len() {
                            assert(seqs_before[c1]@[k1] != sequence@[k2]);
                        } else {
                            assert(seqs_before[c2]@[k2] != sequence@[k1]);
                        }
                    }
                    assert forall|i: int| 0 <= i < n && #[trigger] used@[i] implies exists|c: int|
                        0 <= c < t.len() && #[trigger] t[c]@.contains(i as usize) by {
                        if before[i] {
                            let c = choose|c: int|
                                0 <= c < seqs_before.len() && #[trigger] seqs_before[c]@.contains(
                                    i as usize,
                                );
                            assert(t[c]@.contains(i as usize));
                        } else {
                            assert(t[t.len() - 1]@.contains(i as usize));
                        }
                    }
                    assert(t.map_values(|c: Vec<usize>| c@) =~= seqs_before.map_values(
                        |c: Vec<usize>| c@,
                    ).push(sequence@));
                    assert(seqs_before.map_values(|c: Vec<usize>| c@) + (seq![sequence@]
                        + chains_from(mv, used@, limit, fuel)) =~= t.map_values(
                        |c: Vec<usize>| c@,
                    ) + chains_from(mv, used@, limit, fuel));
                }
            },
        }
    }
    proof {
        let rv = sequences@.map_values(|c: Vec<usize>| c@);
        assert(chains_from(mv, u0, limit, n as nat) =~= rv);
        assert forall|c: int| 0 <= c < rv.len() implies #[trigger] rv[c] == sequences@[c]@ by {}
        assert forall|i: int| 0 <= i < n implies #[trigger] in_some_chain(rv, i) by {
            assert(used@[i]);
            let c = choose|c: int|
                0 <= c < sequences.len() && #[trigger] sequences@[c]@.contains(i as usize);
            assert(rv[c] == sequences@[c]@);
        }
    }
    sequences
}

} // verus!

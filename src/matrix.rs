use vstd::prelude::*;
use crate::frame::Frame;
use crate::metric::{frame_diff, lemma_total_diff_symmetric, total_diff};

verus! {

/// Diagonal entry of a dissimilarity matrix: worse than any real score, so
/// that a frame is never its own neighbour.
pub const SENTINEL: u128 = 0xffff_ffff_ffff_ffff_ffff_ffff_ffff_ffff;

/// The matrix as a sequence of rows.
pub open spec fn matrix_view(m: &Vec<Vec<u128>>) -> Seq<Seq<u128>> {
    m@.map_values(|row: Vec<u128>| row@)
}

/// `m` has `n` rows of `n` entries each.
pub open spec fn is_square(m: Seq<Seq<u128>>, n: int) -> bool {
    &&& m.len() == n
    &&& forall|i: int| 0 <= i < n ==> #[trigger] m[i].len() == n
}

/// Off the diagonal, `m[i][j]` and `m[j][i]` agree.
pub open spec fn is_symmetric(m: Seq<Seq<u128>>) -> bool {
    forall|i: int, j: int|
        0 <= i < m.len() && 0 <= j < m.len() && i != j ==> #[trigger] m[i][j] == #[trigger] m[j][i]
}

/// Every frame is well formed and has the size of the first one.
pub open spec fn frames_uniform(frames: Seq<Frame>) -> bool {
    forall|i: int|
        0 <= i < frames.len() ==> {
            &&& (#[trigger] frames[i]).wf()
            &&& frames[i].width == frames[0].width
            &&& frames[i].height == frames[0].height
        }
}

/// The dissimilarity matrix entry for frames `i` and `j`.
pub open spec fn score(frames: Seq<Frame>, i: int, j: int) -> int {
    if i == j {
        SENTINEL as int
    } else {
        total_diff(frames[i].pixels@, frames[j].pixels@)
    }
}

/// The dissimilarity matrix of the frames.
pub open spec fn matrix_of(frames: Seq<Frame>) -> Seq<Seq<u128>> {
    Seq::new(frames.len(), |i: int| Seq::new(frames.len(), |j: int| score(frames, i, j) as u128))
}

/// Builds the dissimilarity matrix of the frames: entry `(i, j)` is the
/// total pixel difference of frames `i` and `j`, the diagonal holds
/// `SENTINEL`. Each unordered pair is compared once.
pub fn fill_percents(frames: &Vec<Frame>) -> (m: Vec<Vec<u128>>)
    requires
        frames_uniform(frames@),
    ensures
        is_square(matrix_view(&m), frames.len() as int),
        forall|i: int, j: int|
            0 <= i < frames.len() && 0 <= j < frames.len() ==> #[trigger] m@[i]@[j] == score(
                frames@,
                i,
                j,
            ),
        matrix_view(&m) == matrix_of(frames@),
        is_symmetric(matrix_view(&m)),
        forall|i: int| 0 <= i < frames.len() ==> #[trigger] m@[i]@[i] == SENTINEL,
{
    let n = frames.len();
    let mut m: Vec<Vec<u128>> = Vec::new();
    let mut i: usize = 0;
    while i < n
        invariant
            n == frames.len(),
            frames_uniform(frames@),
            i <= n,
            m.len() == i,
            forall|a: int| 0 <= a < i ==> #[trigger] m@[a]@.len() == n,
            forall|a: int, b: int|
                0 <= a < i && 0 <= b < n ==> #[trigger] m@[a]@[b] == score(frames@, a, b),
        decreases n - i,
    {
        let mut row: Vec<u128> = Vec::new();
        let mut j: usize = 0;
        while j < n
            invariant
                n == frames.len(),
                frames_uniform(frames@),
                i < n,
                j <= n,
                m.len() == i,
                forall|a: int| 0 <= a < i ==> #[trigger] m@[a]@.len() == n,
                forall|a: int, b: int|
                    0 <= a < i && 0 <= b < n ==> #[trigger] m@[a]@[b] == score(frames@, a, b),
                row.len() == j,
                forall|b: int| 0 <= b < j ==> #[trigger] row@[b] == score(frames@, i as int, b),
            decreases n - j,
        {
            let v: u128;
            if j < i {
                proof {
                    lemma_total_diff_symmetric(frames@[j as int].pixels@, frames@[i as int].pixels@);
                }
                v = m[j][i];
            } else if j == i {
                v = SENTINEL;
            } else {
                assert(frames@[i as int].wf() && frames@[j as int].wf());
                v = frame_diff(&frames[i].pixels, &frames[j].pixels);
            }
            row.push(v);
            j = j + 1;
        }
        m.push(row);
        i = i + 1;
    }
    proof {
        assert forall|a: int| 0 <= a < n implies #[trigger] matrix_view(&m)[a] == m@[a]@ by {}
        assert forall|a: int, b: int|
            0 <= a < n && 0 <= b < n && a != b implies #[trigger] matrix_view(&m)[a][b]
            == #[trigger] matrix_view(&m)[b][a] by {
            lemma_total_diff_symmetric(frames@[a].pixels@, frames@[b].pixels@);
        }
        assert(matrix_view(&m) =~~= matrix_of(frames@));
    }
    m
}

} // verus!

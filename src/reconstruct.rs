use vstd::prelude::*;
use crate::chain::{all_within, ascending, build_sequences, links_within, off_diagonal_equal, partition_of};
use crate::frame::{Frame, ReconstructError};
use crate::matrix::{fill_percents, frames_uniform, matrix_of};
use crate::metric::{diff_limit, lemma_total_diff_self, limit_of};
use crate::select::{get_biggest_sequence, lemma_longest_prefix, longest_index, reverse_order};

verus! {

/// The recovered order of the frames: the longest chain of the partition of
/// their dissimilarity matrix, reversed on request.
pub open spec fn reconstruction_of(frames: Seq<Frame>, threshold: u32, reverse: bool) -> Seq<usize> {
    let chains = partition_of(
        matrix_of(frames),
        frames.len(),
        limit_of(threshold, frames[0].pixels.len() as u64),
    );
    let best = chains[longest_index(chains)];
    if reverse {
        best.reverse()
    } else {
        best
    }
}

/// Tells whether every frame is well formed and has the first one's size.
pub fn frames_are_uniform(frames: &Vec<Frame>) -> (r: bool)
    ensures
        r == frames_uniform(frames@),
{
    if frames.len() == 0 {
        return true;
    }
    let w = frames[0].width;
    let h = frames[0].height;
    let mut i: usize = 0;
    while i < frames.len()
        invariant
            frames.len() > 0,
            w == frames@[0].width,
            h == frames@[0].height,
            i <= frames.len(),
            forall|j: int|
                0 <= j < i ==> {
                    &&& (#[trigger] frames@[j]).wf()
                    &&& frames@[j].width == w
                    &&& frames@[j].height == h
                },
        decreases frames.len() - i,
    {
        let f = &frames[i];
        assert(f.width as int * f.height as int <= 0xffff_ffff_ffff_ffff) by (nonlinear_arith)
            requires
                f.width <= 0xffff_ffff,
                f.height <= 0xffff_ffff,
        ;
        if f.pixels.len() as u64 != f.width as u64 * f.height as u64 || f.width != w || f.height
            != h {
            return false;
        }
        i = i + 1;
    }
    true
}

/// Recovers the order of the frames. `threshold` is the largest
/// dissimilarity allowed between neighbours, in millionths of the maximal
/// difference (`THRESHOLD_SCALE` is 100 percent). The result lists frame
/// indices in the recovered order; frames outside the longest chain are left
/// out.
pub fn reconstruct(frames: &Vec<Frame>, threshold: u32, reverse: bool) -> (r: Result<
    Vec<usize>,
    ReconstructError,
>)
    ensures
        frames.len() == 0 ==> r == Err::<Vec<usize>, ReconstructError>(ReconstructError::EmptyInput),
        frames.len() > 0 && !frames_uniform(frames@) ==> r == Err::<Vec<usize>, ReconstructError>(
            ReconstructError::DimensionMismatch,
        ),
        frames.len() > 0 && frames_uniform(frames@) ==> r is Ok && r->Ok_0@ == reconstruction_of(
            frames@,
            threshold,
            reverse,
        ),
        frames.len() == 1 && frames_uniform(frames@) ==> r is Ok && r->Ok_0@ == seq![0usize],
        frames.len() > 0 && frames_uniform(frames@) ==> links_within(
            matrix_of(frames@),
            r->Ok_0@,
            limit_of(threshold, frames@[0].pixels.len() as u64),
        ),
        frames.len() > 0 && frames_uniform(frames@) && all_within(
            matrix_of(frames@),
            frames.len() as int,
            limit_of(threshold, frames@[0].pixels.len() as u64),
        ) ==> forall|i: int| 0 <= i < frames.len() ==> #[trigger] r->Ok_0@.contains(i as usize),
        frames.len() > 0 && frames_uniform(frames@) && (forall|i: int|
            0 <= i < frames.len() ==> (#[trigger] frames@[i]).pixels@ == frames@[0].pixels@)
            ==> r->Ok_0@ == (if reverse {
            ascending(frames.len() as nat).reverse()
        } else {
            ascending(frames.len() as nat)
        }),
{
    if frames.len() == 0 {
        return Err(ReconstructError::EmptyInput);
    }
    if !frames_are_uniform(frames) {
        return Err(ReconstructError::DimensionMismatch);
    }
    let percents = fill_percents(frames);
    let limit = diff_limit(threshold, frames[0].pixels.len() as u64);
    let sequences = build_sequences(&percents, limit);
    let ghost cs = sequences@.map_values(|c: Vec<usize>| c@);
    let ghost cs_matrix = matrix_of(frames@);
    proof {
        assert(crate::chain::in_some_chain(cs, 0));
        lemma_longest_prefix(cs, cs.len() as int);
        assert(cs[longest_index(cs)] == sequences@[longest_index(cs)]@);
    }
    let biggest = get_biggest_sequence(&sequences);
    proof {
        if frames.len() == 1 {
            let c = longest_index(cs);
            assert(biggest@ == cs[c]);
            assert(sequences@[c]@ == cs[c]);
            assert(cs[c].len() >= 1);
            if biggest.len() > 1 {
                assert(cs[c][0] < 1 && cs[c][1] < 1);
            }
            assert(biggest@ =~= seq![0usize]);
        }
    }
    proof {
        if forall|i: int|
            0 <= i < frames.len() ==> (#[trigger] frames@[i]).pixels@ == frames@[0].pixels@ {
            lemma_identical_frames_within(frames@, threshold);
            assert(cs.len() == 1);
            assert(longest_index(cs) == 0);
        }
        if all_within(cs_matrix, frames.len() as int, limit as int) {
            assert(cs.len() == 1);
            assert(longest_index(cs) == 0);
            assert forall|i: int| 0 <= i < frames.len() implies #[trigger] biggest@.contains(
                i as usize,
            ) && biggest@.reverse().contains(i as usize) by {
                assert(crate::chain::in_some_chain(cs, i));
                let k = choose|k: int| 0 <= k < biggest.len() && biggest@[k] == i as usize;
                assert(biggest@.reverse()[biggest.len() - 1 - k] == i as usize);
            }
        }
    }
    if reverse {
        let r = reverse_order(&biggest);
        proof {
            assert(links_within(cs_matrix, biggest@, limit as int));
            assert(biggest@.no_duplicates());
            assert forall|k: int| 0 <= k < r.len() - 1 implies #[trigger] cs_matrix[r@[k] as int][r@[k
                + 1] as int] <= limit by {
                let j = biggest.len() - 2 - k;
                assert(r@[k] == biggest@[j + 1] && r@[k + 1] == biggest@[j]);
                assert(cs_matrix[biggest@[j] as int][biggest@[j + 1] as int] <= limit);
                assert(biggest@[j] != biggest@[j + 1]);
            }
            if all_within(cs_matrix, frames.len() as int, limit as int) {
                assert forall|i: int| 0 <= i < frames.len() implies #[trigger] r@.contains(
                    i as usize,
                ) by {
                    assert(biggest@.contains(i as usize));
                }
            }
        }
        Ok(r)
    } else {
        proof {
            assert(links_within(cs_matrix, biggest@, limit as int));
        }
        Ok(biggest)
    }
}

/// Reversal mirrors the recovered order: asking for it gives the order
/// obtained without it, back to front.
pub proof fn lemma_reverse_mirrors(frames: Seq<Frame>, threshold: u32)
    ensures
        reconstruction_of(frames, threshold, true) == reconstruction_of(
            frames,
            threshold,
            false,
        ).reverse(),
{
}

/// Frames whose pixels all agree score nothing against one another: they
/// are all within any threshold, so they end up in a single chain, in
/// ascending order.
pub proof fn lemma_identical_frames_within(frames: Seq<Frame>, threshold: u32)
    requires
        frames.len() > 0,
        forall|i: int| 0 <= i < frames.len() ==> (#[trigger] frames[i]).pixels@ == frames[0].pixels@,
    ensures
        all_within(
            matrix_of(frames),
            frames.len() as int,
            limit_of(threshold, frames[0].pixels.len() as u64),
        ),
        off_diagonal_equal(matrix_of(frames), frames.len() as int),
{
    let m = matrix_of(frames);
    assert forall|i: int, j: int|
        0 <= i < frames.len() && 0 <= j < frames.len() && i != j implies #[trigger] m[i][j]
        <= limit_of(threshold, frames[0].pixels.len() as u64) by {
        assert(frames[i].pixels@ == frames[0].pixels@);
        assert(frames[j].pixels@ == frames[0].pixels@);
        lemma_total_diff_self(frames[0].pixels@);
        assert(m[i][j] == 0);
        assert(0 <= threshold as int * 765 * (frames[0].pixels.len() as u64) as int) by (
        nonlinear_arith);
    }
}

} // verus!

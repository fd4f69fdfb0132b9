use vstd::prelude::*;

use crate::matcher::{sim_ratio, string_similarity};
use crate::matcher::lemma_similarity_range;
use crate::rational::Ratio;
use vstd::pervasive::VecAdditionalExecFns;

verus! {

/// The longest word, in bytes, that the aligner accepts: any two such words
/// still have a combined length that fits the similarity denominator.
pub const MAX_WORD_LEN: u64 = 0x7fff_ffff_ffff_ffff;

/// One candidate entry: a word to be consumed by at most one reference word,
/// and an opaque tag that the aligner carries but never reads.
#[derive(Debug)]
pub struct CandidateEntry {
    pub word: Vec<u8>,
    pub tag: Vec<u8>,
}

/// One alignment outcome: the reference word, the candidate word it consumed
/// if any, and the similarity score (zero when nothing matched).
#[derive(Debug)]
pub struct AlignmentRecord {
    pub reference_word: Vec<u8>,
    pub matched_word: Option<Vec<u8>>,
    pub similarity: Ratio,
}

/// The mathematical content of one alignment record.
pub ghost struct RecordModel {
    pub reference_word: Seq<u8>,
    pub matched_word: Option<Seq<u8>>,
    pub similarity: Ratio,
}

impl View for AlignmentRecord {
    type V = RecordModel;

    open spec fn view(&self) -> RecordModel {
        RecordModel {
            reference_word: self.reference_word@,
            matched_word: match self.matched_word {
                Option::Some(w) => Option::Some(w@),
                Option::None => Option::None,
            },
            similarity: self.similarity,
        }
    }
}

/// The error of an alignment call whose chunk size is zero.
#[derive(Clone, Copy, Debug, PartialEq, Eq, Structural)]
pub enum AlignError {
    InvalidChunkSize,
}

/// The score a scan starts from; only a strictly positive score can beat it.
pub open spec fn zero_ratio() -> Ratio {
    Ratio { num: 0, den: 1 }
}

pub open spec fn opt_view(o: Option<usize>) -> Option<int> {
    match o {
        Option::Some(j) => Option::Some(j as int),
        Option::None => Option::None,
    }
}

/// The words of a reference list.
pub open spec fn ref_words(refs: Seq<Vec<u8>>) -> Seq<Seq<u8>> {
    refs.map_values(|v: Vec<u8>| v@)
}

/// The words of a candidate list, in entry order; the index into this
/// sequence is the unit of candidate identity.
pub open spec fn cand_words(cands: Seq<CandidateEntry>) -> Seq<Seq<u8>> {
    cands.map_values(|c: CandidateEntry| c.word@)
}

/// Scan the candidates from position `j` on: an unused candidate becomes the
/// new best only when its score is strictly greater than the best so far and
/// no less than the threshold, so the earliest of equally good candidates
/// wins.
pub open spec fn scan_candidates(
    rw: Seq<u8>,
    words: Seq<Seq<u8>>,
    used: Seq<bool>,
    threshold: Ratio,
    j: int,
    best: Option<int>,
    best_score: Ratio,
) -> (Option<int>, Ratio)
    decreases words.len() - j,
{
    if 0 <= j < words.len() {
        let sc = sim_ratio(rw, words[j]);
        let improves = !used[j] && sc.spec_gt(best_score) && sc.spec_ge(threshold);
        let next_best = if improves {
            Option::Some(j)
        } else {
            best
        };
        let next_score = if improves {
            sc
        } else {
            best_score
        };
        scan_candidates(rw, words, used, threshold, j + 1, next_best, next_score)
    } else {
        (best, best_score)
    }
}

/// The candidate one reference word picks from the not-yet-used candidates.
pub open spec fn pick_candidate(
    rw: Seq<u8>,
    words: Seq<Seq<u8>>,
    used: Seq<bool>,
    threshold: Ratio,
) -> (Option<int>, Ratio) {
    scan_candidates(rw, words, used, threshold, 0, Option::None, zero_ratio())
}

/// The record a pick produces: the matched word and its score, or no word
/// and a zero score.
pub open spec fn record_of(
    rw: Seq<u8>,
    words: Seq<Seq<u8>>,
    pick: (Option<int>, Ratio),
) -> RecordModel {
    match pick.0 {
        Option::Some(j) => RecordModel {
            reference_word: rw,
            matched_word: Option::Some(words[j]),
            similarity: pick.1,
        },
        Option::None => RecordModel {
            reference_word: rw,
            matched_word: Option::None,
            similarity: zero_ratio(),
        },
    }
}

/// The used set after a pick: the picked index is consumed for the rest of
/// the whole run.
pub open spec fn mark_used(used: Seq<bool>, pick: (Option<int>, Ratio)) -> Seq<bool> {
    match pick.0 {
        Option::Some(j) => used.update(j, true),
        Option::None => used,
    }
}

/// Align the reference words from position `k` on, threading the used set
/// through: one (record, picked index) pair per reference word, in order.
/// Chunking does not appear here; the result depends only on the words, the
/// threshold and the used set.
pub open spec fn align_pairs_from(
    refs: Seq<Seq<u8>>,
    words: Seq<Seq<u8>>,
    threshold: Ratio,
    used: Seq<bool>,
    k: int,
) -> Seq<(RecordModel, Option<int>)>
    decreases refs.len() - k,
{
    if 0 <= k < refs.len() {
        let p = pick_candidate(refs[k], words, used, threshold);
        seq![(record_of(refs[k], words, p), p.0)] + align_pairs_from(
            refs,
            words,
            threshold,
            mark_used(used, p),
            k + 1,
        )
    } else {
        Seq::empty()
    }
}

/// A used set with nothing consumed yet.
pub open spec fn unused_all(n: nat) -> Seq<bool> {
    Seq::new(n, |i: int| false)
}

/// The (record, picked index) pairs of a full alignment run.
pub open spec fn align_pairs(
    refs: Seq<Seq<u8>>,
    words: Seq<Seq<u8>>,
    threshold: Ratio,
) -> Seq<(RecordModel, Option<int>)> {
    align_pairs_from(refs, words, threshold, unused_all(words.len()), 0)
}

pub open spec fn records_of_pairs(pairs: Seq<(RecordModel, Option<int>)>) -> Seq<RecordModel> {
    pairs.map_values(|p: (RecordModel, Option<int>)| p.0)
}

pub open spec fn picks_of_pairs(pairs: Seq<(RecordModel, Option<int>)>) -> Seq<Option<int>> {
    pairs.map_values(|p: (RecordModel, Option<int>)| p.1)
}

/// The records of a full alignment run: one per reference word, in order.
pub open spec fn align_spec(
    refs: Seq<Seq<u8>>,
    words: Seq<Seq<u8>>,
    threshold: Ratio,
) -> Seq<RecordModel> {
    records_of_pairs(align_pairs(refs, words, threshold))
}

/// The candidate index each reference word consumed, if any.
pub open spec fn align_picks(
    refs: Seq<Seq<u8>>,
    words: Seq<Seq<u8>>,
    threshold: Ratio,
) -> Seq<Option<int>> {
    picks_of_pairs(align_pairs(refs, words, threshold))
}

/// A byte-for-byte copy of a word.
fn clone_bytes(v: &Vec<u8>) -> (r: Vec<u8>)
    ensures
        r@ == v@,
{
    let r = v.clone();
    proof {
        assert forall|i: int| 0 <= i < v@.len() implies r@[i] == v@[i] by {
            assert(vstd::pervasive::cloned::<u8>(v[i], r[i]));
        }
        assert(r@ =~= v@);
    }
    r
}

/// A used set of `n` entries, none consumed.
fn false_row(n: usize) -> (r: Vec<bool>)
    ensures
        r@ == unused_all(n as nat),
{
    let mut r: Vec<bool> = Vec::new();
    let mut k: usize = 0;
    while k < n
        invariant
            k <= n,
            r@.len() == k,
            forall|t: int| 0 <= t < k ==> r@[t] == false,
        decreases n - k,
    {
        r.push(false);
        k = k + 1;
    }
    proof {
        assert(r@ =~= unused_all(n as nat));
    }
    r
}

/// Pair each reference word, in order, with its best unused candidate at or
/// above the threshold. The reference list is walked in contiguous chunks of
/// `chunk_size` words, purely as a processing granularity: the one used set
/// spans the whole run, so the result is the same for every chunk size, as
/// the `align_spec` ensures states — it does not mention the chunk size.
/// A chunk size of zero is refused.
#[verifier::loop_isolation(false)]
pub fn align_string_lists_chunked(
    reference_list: &Vec<Vec<u8>>,
    comparison_list: &Vec<CandidateEntry>,
    similarity_threshold: Ratio,
    chunk_size: usize,
) -> (r: Result<Vec<AlignmentRecord>, AlignError>)
    requires
        similarity_threshold.wf(),
        forall|i: int|
            0 <= i < reference_list@.len() ==> (#[trigger] reference_list@[i])@.len()
                <= MAX_WORD_LEN,
        forall|i: int|
            0 <= i < comparison_list@.len() ==> (#[trigger] comparison_list@[i]).word@.len()
                <= MAX_WORD_LEN,
    ensures
        (chunk_size == 0) <==> (r is Err),
        r matches Err(e) ==> e == AlignError::InvalidChunkSize,
        r matches Ok(v) ==> {
            &&& v@.len() == reference_list@.len()
            &&& v@.map_values(|rec: AlignmentRecord| rec@) == align_spec(
                ref_words(reference_list@),
                cand_words(comparison_list@),
                similarity_threshold,
            )
        },
{
    if chunk_size == 0 {
        return Result::Err(AlignError::InvalidChunkSize);
    }
    let ghost grefs = ref_words(reference_list@);
    let ghost gwords = cand_words(comparison_list@);
    let ghost goal = align_spec(grefs, gwords, similarity_threshold);

    let n_cands = comparison_list.len();
    let n_refs = reference_list.len();

    // Project the candidate entries to their words once.
    let mut words: Vec<Vec<u8>> = Vec::new();
    let mut ci: usize = 0;
    while ci < n_cands
        invariant
            ci <= n_cands,
            words@.len() == ci,
            forall|t: int| 0 <= t < ci ==> (#[trigger] words@[t])@ == gwords[t],
        decreases n_cands - ci,
    {
        words.push(clone_bytes(&comparison_list[ci].word));
        ci = ci + 1;
    }

    let mut used = false_row(n_cands);
    let mut records: Vec<AlignmentRecord> = Vec::new();
    proof {
        assert(records@.map_values(|rec: AlignmentRecord| rec@) =~= Seq::<RecordModel>::empty());
        assert(Seq::<RecordModel>::empty() + records_of_pairs(
            align_pairs_from(grefs, gwords, similarity_threshold, used@, 0),
        ) =~= goal);
    }

    let mut chunk_start: usize = 0;
    while chunk_start < n_refs
        invariant
            chunk_start <= n_refs,
            used@.len() == n_cands,
            words@.len() == n_cands,
            forall|t: int| 0 <= t < n_cands ==> (#[trigger] words@[t])@ == gwords[t],
            records@.len() == chunk_start,
            records@.map_values(|rec: AlignmentRecord| rec@) + records_of_pairs(
                align_pairs_from(grefs, gwords, similarity_threshold, used@, chunk_start as int),
            ) == goal,
        decreases n_refs - chunk_start,
    {
        let chunk_end = if n_refs - chunk_start <= chunk_size {
            n_refs
        } else {
            chunk_start + chunk_size
        };
        let mut ri = chunk_start;
        while ri < chunk_end
            invariant
                chunk_start <= ri <= chunk_end <= n_refs,
                used@.len() == n_cands,
                words@.len() == n_cands,
                forall|t: int| 0 <= t < n_cands ==> (#[trigger] words@[t])@ == gwords[t],
                records@.len() == ri,
                records@.map_values(|rec: AlignmentRecord| rec@) + records_of_pairs(
                    align_pairs_from(grefs, gwords, similarity_threshold, used@, ri as int),
                ) == goal,
            decreases chunk_end - ri,
        {
            let ghost rw = grefs[ri as int];
            let ghost used0 = used@;
            let ghost old_models = records@.map_values(|rec: AlignmentRecord| rec@);

            let mut best_index: Option<usize> = Option::None;
            let mut best_score = Ratio { num: 0, den: 1 };
            let mut cj: usize = 0;
            while cj < n_cands
                invariant
                    cj <= n_cands,
                    used@ == used0,
                    match best_index {
                        Option::Some(j) => j < n_cands,
                        Option::None => true,
                    },
                    scan_candidates(
                        rw,
                        gwords,
                        used0,
                        similarity_threshold,
                        cj as int,
                        opt_view(best_index),
                        best_score,
                    ) == pick_candidate(rw, gwords, used0, similarity_threshold),
                decreases n_cands - cj,
            {
                if !used[cj] {
                    let sc = string_similarity(
                        reference_list[ri].as_slice(),
                        words[cj].as_slice(),
                    );
                    proof {
                        lemma_similarity_range(rw, gwords[cj as int]);
                        assert(sc == sim_ratio(rw, gwords[cj as int]));
                    }
                    if sc.gt(&best_score) && sc.ge(&similarity_threshold) {
                        best_index = Option::Some(cj);
                        best_score = sc;
                    }
                }
                cj = cj + 1;
            }

            let ghost p = pick_candidate(rw, gwords, used0, similarity_threshold);
            proof {
                assert((opt_view(best_index), best_score) == p);
            }
            let ghost pr = (record_of(rw, gwords, p), p.0);
            let ghost tail = align_pairs_from(
                grefs,
                gwords,
                similarity_threshold,
                mark_used(used0, p),
                ri as int + 1,
            );
            proof {
                assert(align_pairs_from(grefs, gwords, similarity_threshold, used0, ri as int)
                    == seq![pr] + tail);
            }

            match best_index {
                Option::Some(j) => {
                    let matched = clone_bytes(&words[j]);
                    let refc = clone_bytes(&reference_list[ri]);
                    records.push(
                        AlignmentRecord {
                            reference_word: refc,
                            matched_word: Option::Some(matched),
                            similarity: best_score,
                        },
                    );
                    used.set(j, true);
                    proof {
                        assert(used@ == mark_used(used0, p));
                    }
                },
                Option::None => {
                    let refc = clone_bytes(&reference_list[ri]);
                    records.push(
                        AlignmentRecord {
                            reference_word: refc,
                            matched_word: Option::None,
                            similarity: Ratio { num: 0, den: 1 },
                        },
                    );
                    proof {
                        assert(used@ == mark_used(used0, p));
                    }
                },
            }
            proof {
                assert(records@.last()@ == pr.0);
                assert(records@.map_values(|rec: AlignmentRecord| rec@) =~= old_models + seq![
                    pr.0,
                ]);
                assert(records_of_pairs(seq![pr] + tail) =~= seq![pr.0] + records_of_pairs(tail));
                assert(records@.map_values(|rec: AlignmentRecord| rec@) + records_of_pairs(tail)
                    =~= goal);
            }
            ri = ri + 1;
        }
        chunk_start = chunk_end;
    }
    proof {
        assert(records_of_pairs(
            align_pairs_from(grefs, gwords, similarity_threshold, used@, n_refs as int),
        ) =~= Seq::<RecordModel>::empty());
        assert(records@.map_values(|rec: AlignmentRecord| rec@) =~= goal);
    }
    Result::Ok(records)
}

// ----------------------------------------------------------------------------
// Alignment laws.
// ----------------------------------------------------------------------------

/// What holds of a running best during one candidate scan.
spec fn pick_inv(
    rw: Seq<u8>,
    words: Seq<Seq<u8>>,
    used: Seq<bool>,
    threshold: Ratio,
    best: Option<int>,
    best_score: Ratio,
) -> bool {
    best matches Option::Some(j) ==> {
        &&& 0 <= j < words.len()
        &&& !used[j]
        &&& best_score == sim_ratio(rw, words[j])
        &&& best_score.spec_ge(threshold)
    }
}

proof fn lemma_scan_inv(
    rw: Seq<u8>,
    words: Seq<Seq<u8>>,
    used: Seq<bool>,
    threshold: Ratio,
    j: int,
    best: Option<int>,
    best_score: Ratio,
)
    requires
        pick_inv(rw, words, used, threshold, best, best_score),
    ensures
        pick_inv(
            rw,
            words,
            used,
            threshold,
            scan_candidates(rw, words, used, threshold, j, best, best_score).0,
            scan_candidates(rw, words, used, threshold, j, best, best_score).1,
        ),
    decreases words.len() - j,
{
    if 0 <= j < words.len() {
        let sc = sim_ratio(rw, words[j]);
        let improves = !used[j] && sc.spec_gt(best_score) && sc.spec_ge(threshold);
        if improves {
            lemma_scan_inv(rw, words, used, threshold, j + 1, Option::Some(j), sc);
        } else {
            lemma_scan_inv(rw, words, used, threshold, j + 1, best, best_score);
        }
    }
}

/// What one pick guarantees: a consumed candidate exists, was unused, and
/// its score meets the threshold exactly as recorded.
proof fn lemma_pick_props(rw: Seq<u8>, words: Seq<Seq<u8>>, used: Seq<bool>, threshold: Ratio)
    ensures
        pick_inv(
            rw,
            words,
            used,
            threshold,
            pick_candidate(rw, words, used, threshold).0,
            pick_candidate(rw, words, used, threshold).1,
        ),
{
    lemma_scan_inv(rw, words, used, threshold, 0, Option::None, zero_ratio());
}

proof fn lemma_scan_keeps_some(
    rw: Seq<u8>,
    words: Seq<Seq<u8>>,
    used: Seq<bool>,
    threshold: Ratio,
    j: int,
    best: Option<int>,
    best_score: Ratio,
)
    requires
        best is Some,
    ensures
        scan_candidates(rw, words, used, threshold, j, best, best_score).0 is Some,
    decreases words.len() - j,
{
    if 0 <= j < words.len() {
        let sc = sim_ratio(rw, words[j]);
        let improves = !used[j] && sc.spec_gt(best_score) && sc.spec_ge(threshold);
        if improves {
            lemma_scan_keeps_some(rw, words, used, threshold, j + 1, Option::Some(j), sc);
        } else {
            lemma_scan_keeps_some(rw, words, used, threshold, j + 1, best, best_score);
        }
    }
}

proof fn lemma_scan_finds_eligible(
    rw: Seq<u8>,
    words: Seq<Seq<u8>>,
    used: Seq<bool>,
    threshold: Ratio,
    j: int,
    best: Option<int>,
    best_score: Ratio,
    j0: int,
)
    requires
        0 <= j <= j0 < words.len(),
        !used[j0],
        sim_ratio(rw, words[j0]).spec_ge(threshold),
        sim_ratio(rw, words[j0]).spec_gt(zero_ratio()),
        best is Some || best_score == zero_ratio(),
    ensures
        scan_candidates(rw, words, used, threshold, j, best, best_score).0 is Some,
    decreases words.len() - j,
{
    let sc = sim_ratio(rw, words[j]);
    let improves = !used[j] && sc.spec_gt(best_score) && sc.spec_ge(threshold);
    let next_best = if improves {
        Option::Some(j)
    } else {
        best
    };
    let next_score = if improves {
        sc
    } else {
        best_score
    };
    if j == j0 && next_best is None {
        // A best below nothing: the eligible candidate must have improved.
        assert(false);
    }
    if next_best is Some {
        lemma_scan_keeps_some(rw, words, used, threshold, j + 1, next_best, next_score);
    } else {
        lemma_scan_finds_eligible(rw, words, used, threshold, j + 1, next_best, next_score, j0);
    }
}

/// A match is owed: whenever some unused candidate has a positive similarity
/// at or above the threshold, the pick is not empty — so a score exactly at
/// the threshold is eligible to match.
pub proof fn lemma_pick_finds_eligible(
    rw: Seq<u8>,
    words: Seq<Seq<u8>>,
    used: Seq<bool>,
    threshold: Ratio,
    j0: int,
)
    requires
        0 <= j0 < words.len(),
        !used[j0],
        sim_ratio(rw, words[j0]).spec_ge(threshold),
        sim_ratio(rw, words[j0]).spec_gt(zero_ratio()),
    ensures
        pick_candidate(rw, words, used, threshold).0 is Some,
{
    lemma_scan_finds_eligible(rw, words, used, threshold, 0, Option::None, zero_ratio(), j0);
}

/// What holds of one (record, pick) pair produced for reference word `rw`
/// when the used set was `used`.
pub open spec fn pair_props(
    pair: (RecordModel, Option<int>),
    rw: Seq<u8>,
    words: Seq<Seq<u8>>,
    used: Seq<bool>,
    threshold: Ratio,
) -> bool {
    &&& pair.0.reference_word == rw
    &&& (pair.1 matches Option::Some(j) ==> {
        &&& 0 <= j < words.len()
        &&& !used[j]
        &&& pair.0.matched_word == Option::Some(words[j])
        &&& pair.0.similarity == sim_ratio(rw, words[j])
        &&& pair.0.similarity.spec_ge(threshold)
    })
    &&& (pair.1 is None ==> pair.0.matched_word is None && pair.0.similarity == zero_ratio())
}

proof fn lemma_align_pairs_from_props(
    refs: Seq<Seq<u8>>,
    words: Seq<Seq<u8>>,
    threshold: Ratio,
    used: Seq<bool>,
    k: int,
)
    requires
        used.len() == words.len(),
        0 <= k <= refs.len(),
    ensures
        align_pairs_from(refs, words, threshold, used, k).len() == refs.len() - k,
        forall|t: int|
            0 <= t < refs.len() - k ==> pair_props(
                #[trigger] align_pairs_from(refs, words, threshold, used, k)[t],
                refs[k + t],
                words,
                used,
                threshold,
            ),
        forall|t1: int, t2: int|
            0 <= t1 < t2 < refs.len() - k && align_pairs_from(refs, words, threshold, used, k)[t1].1
                is Some && align_pairs_from(refs, words, threshold, used, k)[t2].1 is Some
                ==> #[trigger] align_pairs_from(refs, words, threshold, used, k)[t1].1
                != #[trigger] align_pairs_from(refs, words, threshold, used, k)[t2].1,
    decreases refs.len() - k,
{
    if k < refs.len() {
        let p = pick_candidate(refs[k], words, used, threshold);
        lemma_pick_props(refs[k], words, used, threshold);
        let used1 = mark_used(used, p);
        let head = (record_of(refs[k], words, p), p.0);
        let tail = align_pairs_from(refs, words, threshold, used1, k + 1);
        let pairs = align_pairs_from(refs, words, threshold, used, k);
        assert(used1.len() == words.len());
        lemma_align_pairs_from_props(refs, words, threshold, used1, k + 1);
        assert(pairs == seq![head] + tail);
        assert(pairs[0] == head);
        assert(forall|t: int| 1 <= t < pairs.len() ==> pairs[t] == tail[t - 1]);
        assert(pair_props(head, refs[k], words, used, threshold));
        assert forall|t: int| 0 <= t < refs.len() - k implies pair_props(
            #[trigger] pairs[t],
            refs[k + t],
            words,
            used,
            threshold,
        ) by {
            if t >= 1 {
                assert(pair_props(tail[t - 1], refs[k + 1 + (t - 1)], words, used1, threshold));
            }
        }
        assert forall|t1: int, t2: int|
            0 <= t1 < t2 < refs.len() - k && pairs[t1].1 is Some && pairs[t2].1
                is Some implies #[trigger] pairs[t1].1 != #[trigger] pairs[t2].1 by {
            if t1 == 0 {
                assert(pair_props(tail[t2 - 1], refs[k + 1 + (t2 - 1)], words, used1, threshold));
            }
        }
    }
}

/// One record per reference word, in reference order.
pub proof fn lemma_align_len(refs: Seq<Seq<u8>>, words: Seq<Seq<u8>>, threshold: Ratio)
    ensures
        align_spec(refs, words, threshold).len() == refs.len(),
        align_picks(refs, words, threshold).len() == refs.len(),
{
    lemma_align_pairs_from_props(refs, words, threshold, unused_all(words.len()), 0);
}

/// Exclusivity: no two records of one alignment run consume the same
/// candidate entry, over the whole run and not merely within a chunk.
pub proof fn lemma_align_exclusive(
    refs: Seq<Seq<u8>>,
    words: Seq<Seq<u8>>,
    threshold: Ratio,
    t1: int,
    t2: int,
)
    requires
        t1 != t2,
        0 <= t1 < refs.len(),
        0 <= t2 < refs.len(),
        align_picks(refs, words, threshold)[t1] is Some,
        align_picks(refs, words, threshold)[t2] is Some,
    ensures
        align_picks(refs, words, threshold)[t1] != align_picks(refs, words, threshold)[t2],
{
    lemma_align_pairs_from_props(refs, words, threshold, unused_all(words.len()), 0);
}

/// Threshold law: a record that matched consumed an existing candidate, its
/// recorded score is exactly that candidate's similarity, and the score is
/// at or above the threshold — so a score exactly at the threshold is
/// eligible, and one strictly below it is never matched. An unmatched record
/// carries no word and score zero.
pub proof fn lemma_align_matched_meets_threshold(
    refs: Seq<Seq<u8>>,
    words: Seq<Seq<u8>>,
    threshold: Ratio,
    t: int,
)
    requires
        0 <= t < refs.len(),
    ensures
        align_spec(refs, words, threshold)[t].reference_word == refs[t],
        align_picks(refs, words, threshold)[t] matches Option::Some(j) ==> {
            &&& 0 <= j < words.len()
            &&& align_spec(refs, words, threshold)[t].matched_word == Option::Some(words[j])
            &&& align_spec(refs, words, threshold)[t].similarity == sim_ratio(refs[t], words[j])
            &&& align_spec(refs, words, threshold)[t].similarity.spec_ge(threshold)
        },
        align_picks(refs, words, threshold)[t] is None ==> {
            &&& align_spec(refs, words, threshold)[t].matched_word is None
            &&& align_spec(refs, words, threshold)[t].similarity == zero_ratio()
        },
{
    lemma_align_pairs_from_props(refs, words, threshold, unused_all(words.len()), 0);
    assert(pair_props(
        align_pairs(refs, words, threshold)[t],
        refs[t],
        words,
        unused_all(words.len()),
        threshold,
    ));
}

} // verus!

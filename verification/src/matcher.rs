use vstd::prelude::*;

use crate::rational::Ratio;

verus! {

// ----------------------------------------------------------------------------
// Specification model of the longest-match search.
//
// A window is the pair of half-open byte ranges `a[alo..ahi]` and
// `b[blo..bhi]`. A cell is a pair `(i, j)` with `alo <= i < ahi` and
// `blo <= j < bhi`. The search walks the cells in row-major order (all of row
// `i` before row `i + 1`, and within a row by ascending `j`) and keeps the
// best run seen so far, replacing it only on a strictly longer run, so among
// equal-length runs the one whose end cell comes first wins.
// ----------------------------------------------------------------------------

/// Length of the run of pairwise-equal bytes that ends at cell `(i, j)`,
/// counted back no further than the window starts `(alo, blo)`.
pub open spec fn run_len(a: Seq<u8>, b: Seq<u8>, alo: int, blo: int, i: int, j: int) -> int
    decreases i - alo,
{
    if a[i] == b[j] {
        let back = if i > alo && j > blo {
            run_len(a, b, alo, blo, i - 1, j - 1)
        } else {
            0
        };
        1 + back
    } else {
        0
    }
}

/// One scan step: cell `(i, j)` replaces the best `(start_a, start_b, len)`
/// triple only when its run is strictly longer.
pub open spec fn scan_step(
    a: Seq<u8>,
    b: Seq<u8>,
    alo: int,
    blo: int,
    best: (int, int, int),
    i: int,
    j: int,
) -> (int, int, int) {
    let v = run_len(a, b, alo, blo, i, j);
    if v > best.2 {
        (i - v + 1, j - v + 1, v)
    } else {
        best
    }
}

/// Scan the cells `(i, j), (i, j + 1), ..., (i, bhi - 1)` of row `i`.
pub open spec fn scan_row(
    a: Seq<u8>,
    b: Seq<u8>,
    alo: int,
    blo: int,
    bhi: int,
    i: int,
    j: int,
    best: (int, int, int),
) -> (int, int, int)
    decreases bhi - j,
{
    if j < bhi {
        scan_row(a, b, alo, blo, bhi, i, j + 1, scan_step(a, b, alo, blo, best, i, j))
    } else {
        best
    }
}

/// Scan the rows `i, i + 1, ..., ahi - 1`.
pub open spec fn scan_rows(
    a: Seq<u8>,
    b: Seq<u8>,
    alo: int,
    ahi: int,
    blo: int,
    bhi: int,
    i: int,
    best: (int, int, int),
) -> (int, int, int)
    decreases ahi - i,
{
    if i < ahi {
        scan_rows(a, b, alo, ahi, blo, bhi, i + 1, scan_row(a, b, alo, blo, bhi, i, blo, best))
    } else {
        best
    }
}

/// The longest run of equal bytes between `a[alo..ahi]` and `b[blo..bhi]`,
/// as `(start in a, start in b, length)`; ties go to the run whose end cell
/// comes first in row-major order. When nothing matches, the result is
/// `(alo, blo, 0)`.
pub open spec fn longest_match(
    a: Seq<u8>,
    b: Seq<u8>,
    alo: int,
    ahi: int,
    blo: int,
    bhi: int,
) -> (int, int, int) {
    scan_rows(a, b, alo, ahi, blo, bhi, alo, (alo, blo, 0))
}

/// A best triple that lies inside the window; a zero length means the triple
/// still holds the window starts.
pub open spec fn best_in_window(
    best: (int, int, int),
    alo: int,
    ahi: int,
    blo: int,
    bhi: int,
) -> bool {
    &&& 0 <= best.2
    &&& alo <= best.0
    &&& blo <= best.1
    &&& best.0 + best.2 <= ahi
    &&& best.1 + best.2 <= bhi
    &&& (best.2 == 0 ==> best.0 == alo && best.1 == blo)
}

// ----------------------------------------------------------------------------
// Bounds on the scan.
// ----------------------------------------------------------------------------

/// A run that ends at `(i, j)` fits between the window starts and `(i, j)`.
pub proof fn lemma_run_len_bounds(a: Seq<u8>, b: Seq<u8>, alo: int, blo: int, i: int, j: int)
    requires
        alo <= i,
        blo <= j,
    ensures
        0 <= run_len(a, b, alo, blo, i, j),
        run_len(a, b, alo, blo, i, j) <= i - alo + 1,
        run_len(a, b, alo, blo, i, j) <= j - blo + 1,
    decreases i - alo,
{
    if a[i] == b[j] && i > alo && j > blo {
        lemma_run_len_bounds(a, b, alo, blo, i - 1, j - 1);
    }
}

proof fn lemma_scan_step_in_window(
    a: Seq<u8>,
    b: Seq<u8>,
    alo: int,
    ahi: int,
    blo: int,
    bhi: int,
    best: (int, int, int),
    i: int,
    j: int,
)
    requires
        best_in_window(best, alo, ahi, blo, bhi),
        alo <= i < ahi,
        blo <= j < bhi,
    ensures
        best_in_window(scan_step(a, b, alo, blo, best, i, j), alo, ahi, blo, bhi),
        scan_step(a, b, alo, blo, best, i, j).2 >= best.2,
{
    lemma_run_len_bounds(a, b, alo, blo, i, j);
}

proof fn lemma_scan_row_in_window(
    a: Seq<u8>,
    b: Seq<u8>,
    alo: int,
    ahi: int,
    blo: int,
    bhi: int,
    i: int,
    j: int,
    best: (int, int, int),
)
    requires
        best_in_window(best, alo, ahi, blo, bhi),
        alo <= i < ahi,
        blo <= j,
    ensures
        best_in_window(scan_row(a, b, alo, blo, bhi, i, j, best), alo, ahi, blo, bhi),
        scan_row(a, b, alo, blo, bhi, i, j, best).2 >= best.2,
    decreases bhi - j,
{
    if j < bhi {
        lemma_scan_step_in_window(a, b, alo, ahi, blo, bhi, best, i, j);
        lemma_scan_row_in_window(
            a,
            b,
            alo,
            ahi,
            blo,
            bhi,
            i,
            j + 1,
            scan_step(a, b, alo, blo, best, i, j),
        );
    }
}

proof fn lemma_scan_rows_in_window(
    a: Seq<u8>,
    b: Seq<u8>,
    alo: int,
    ahi: int,
    blo: int,
    bhi: int,
    i: int,
    best: (int, int, int),
)
    requires
        best_in_window(best, alo, ahi, blo, bhi),
        alo <= i,
    ensures
        best_in_window(scan_rows(a, b, alo, ahi, blo, bhi, i, best), alo, ahi, blo, bhi),
        scan_rows(a, b, alo, ahi, blo, bhi, i, best).2 >= best.2,
    decreases ahi - i,
{
    if i < ahi {
        lemma_scan_row_in_window(a, b, alo, ahi, blo, bhi, i, blo, best);
        lemma_scan_rows_in_window(
            a,
            b,
            alo,
            ahi,
            blo,
            bhi,
            i + 1,
            scan_row(a, b, alo, blo, bhi, i, blo, best),
        );
    }
}

/// The longest match lies inside its window.
pub proof fn lemma_longest_match_in_window(
    a: Seq<u8>,
    b: Seq<u8>,
    alo: int,
    ahi: int,
    blo: int,
    bhi: int,
)
    requires
        alo <= ahi,
        blo <= bhi,
    ensures
        best_in_window(longest_match(a, b, alo, ahi, blo, bhi), alo, ahi, blo, bhi),
{
    lemma_scan_rows_in_window(a, b, alo, ahi, blo, bhi, alo, (alo, blo, 0));
}

// ----------------------------------------------------------------------------
// The dynamic-programming search itself.
// ----------------------------------------------------------------------------

/// A vector of `n` zeros, one slot per window column.
fn zero_row(n: usize) -> (r: Vec<usize>)
    ensures
        r@.len() == n,
        forall|k: int| 0 <= k < n ==> r@[k] == 0,
{
    let mut r: Vec<usize> = Vec::new();
    let mut k: usize = 0;
    while k < n
        invariant
            k <= n,
            r@.len() == k,
            forall|t: int| 0 <= t < k ==> r@[t] == 0,
        decreases n - k,
    {
        r.push(0);
        k = k + 1;
    }
    r
}

/// Find one longest common contiguous byte run between `a[a_start..a_end]`
/// and `b[b_start..b_end]`, by filling the classic dynamic-programming table
/// row by row. The best cell is replaced only on a strict improvement, so the
/// first longest run encountered in row-major order wins.
#[verifier::loop_isolation(false)]
pub fn find_longest_match(
    a: &[u8],
    b: &[u8],
    a_start: usize,
    a_end: usize,
    b_start: usize,
    b_end: usize,
) -> (r: (usize, usize, usize))
    requires
        a_start <= a_end <= a@.len(),
        b_start <= b_end <= b@.len(),
    ensures
        (r.0 as int, r.1 as int, r.2 as int) == longest_match(
            a@,
            b@,
            a_start as int,
            a_end as int,
            b_start as int,
            b_end as int,
        ),
        best_in_window(
            (r.0 as int, r.1 as int, r.2 as int),
            a_start as int,
            a_end as int,
            b_start as int,
            b_end as int,
        ),
{
    let ghost al = a_start as int;
    let ghost ah = a_end as int;
    let ghost bl = b_start as int;
    let ghost bh = b_end as int;

    let width = b_end - b_start;
    let mut best_i: usize = a_start;
    let mut best_j: usize = b_start;
    let mut longest: usize = 0;

    // `prev[t]` holds the run length ending at `(i - 1, b_start + t)`.
    let mut prev = zero_row(width);

    let mut i = a_start;
    while i < a_end
        invariant
            a_start <= i <= a_end,
            prev@.len() == width,
            forall|t: int|
                0 <= t < width ==> prev@[t] == (if i > a_start {
                    run_len(a@, b@, al, bl, i - 1, b_start + t)
                } else {
                    0
                }),
            best_in_window((best_i as int, best_j as int, longest as int), al, ah, bl, bh),
            scan_rows(a@, b@, al, ah, bl, bh, i as int, (best_i as int, best_j as int, longest as int))
                == longest_match(a@, b@, al, ah, bl, bh),
        decreases a_end - i,
    {
        let ghost row_entry = (best_i as int, best_j as int, longest as int);
        let mut cur: Vec<usize> = Vec::new();
        let mut j = b_start;
        while j < b_end
            invariant
                b_start <= j <= b_end,
                a_start <= i < a_end,
                prev@.len() == width,
                forall|t: int|
                    0 <= t < width ==> prev@[t] == (if i > a_start {
                        run_len(a@, b@, al, bl, i - 1, b_start + t)
                    } else {
                        0
                    }),
                cur@.len() == j - b_start,
                forall|t: int| 0 <= t < j - b_start ==> cur@[t] == run_len(a@, b@, al, bl, i as int, b_start + t),
                best_in_window((best_i as int, best_j as int, longest as int), al, ah, bl, bh),
                scan_row(a@, b@, al, bl, bh, i as int, j as int, (best_i as int, best_j as int, longest as int))
                    == scan_row(a@, b@, al, bl, bh, i as int, bl, row_entry),
            decreases b_end - j,
        {
            proof {
                lemma_run_len_bounds(a@, b@, al, bl, i as int, j as int);
            }
            let v: usize = if a[i] == b[j] {
                let diag: usize = if i > a_start && j > b_start {
                    prev[j - 1 - b_start]
                } else {
                    0
                };
                diag + 1
            } else {
                0
            };
            assert(v as int == run_len(a@, b@, al, bl, i as int, j as int));
            cur.push(v);
            if v > longest {
                longest = v;
                best_i = i + 1 - v;
                best_j = j + 1 - v;
            }
            j = j + 1;
        }
        prev = cur;
        i = i + 1;
    }
    (best_i, best_j, longest)
}

// ----------------------------------------------------------------------------
// Specification model of the matching-block decomposition.
// ----------------------------------------------------------------------------

/// The matching blocks of a window: the longest match, flanked by the blocks
/// of the sub-window strictly before it and the sub-window strictly after it.
/// Each sub-window is decomposed only when it has a non-empty span on both
/// axes, and a window without any match contributes no blocks, so the listed
/// blocks all have positive length and ascending start indices.
pub open spec fn blocks_spec(
    a: Seq<u8>,
    b: Seq<u8>,
    alo: int,
    ahi: int,
    blo: int,
    bhi: int,
) -> Seq<(int, int, int)>
    decreases (ahi - alo) + (bhi - blo),
    when 0 <= alo <= ahi <= a.len() && 0 <= blo <= bhi <= b.len()
    via blocks_spec_decreases
{
    let m = longest_match(a, b, alo, ahi, blo, bhi);
    if m.2 <= 0 {
        Seq::empty()
    } else {
        let before = if alo < m.0 && blo < m.1 {
            blocks_spec(a, b, alo, m.0, blo, m.1)
        } else {
            Seq::empty()
        };
        let after = if m.0 + m.2 < ahi && m.1 + m.2 < bhi {
            blocks_spec(a, b, m.0 + m.2, ahi, m.1 + m.2, bhi)
        } else {
            Seq::empty()
        };
        before + seq![m] + after
    }
}

#[via_fn]
proof fn blocks_spec_decreases(a: Seq<u8>, b: Seq<u8>, alo: int, ahi: int, blo: int, bhi: int) {
    lemma_longest_match_in_window(a, b, alo, ahi, blo, bhi);
}

/// One matching block: a run of `length > 0` identical bytes starting at
/// `a_index` in the first string and `b_index` in the second.
#[derive(Clone, Copy, Debug, PartialEq, Eq, Structural)]
pub struct MatchingBlock {
    pub a_index: usize,
    pub b_index: usize,
    pub length: usize,
}

impl View for MatchingBlock {
    type V = (int, int, int);

    open spec fn view(&self) -> (int, int, int) {
        (self.a_index as int, self.b_index as int, self.length as int)
    }
}

/// The mathematical triples behind a vector of blocks.
pub open spec fn blocks_view(s: Seq<MatchingBlock>) -> Seq<(int, int, int)> {
    s.map_values(|mb: MatchingBlock| mb@)
}

/// A pending piece of work: a window still to be decomposed, or a block
/// whose flanking windows come earlier respectively later on the stack.
enum WorkItem {
    Window(usize, usize, usize, usize),
    Emit(usize, usize, usize),
}

spec fn item_wf(a: Seq<u8>, b: Seq<u8>, it: WorkItem) -> bool {
    match it {
        WorkItem::Window(a0, a1, b0, b1) => a0 <= a1 <= a.len() && b0 <= b1 <= b.len(),
        WorkItem::Emit(_, _, _) => true,
    }
}

spec fn item_blocks(a: Seq<u8>, b: Seq<u8>, it: WorkItem) -> Seq<(int, int, int)> {
    match it {
        WorkItem::Window(a0, a1, b0, b1) => blocks_spec(
            a,
            b,
            a0 as int,
            a1 as int,
            b0 as int,
            b1 as int,
        ),
        WorkItem::Emit(i, j, k) => seq![(i as int, j as int, k as int)],
    }
}

/// The blocks still owed by the stack, top of the stack first.
spec fn pending_blocks(a: Seq<u8>, b: Seq<u8>, items: Seq<WorkItem>) -> Seq<(int, int, int)>
    decreases items.len(),
{
    if items.len() == 0 {
        Seq::empty()
    } else {
        item_blocks(a, b, items.last()) + pending_blocks(a, b, items.drop_last())
    }
}

spec fn item_measure(it: WorkItem) -> int {
    match it {
        WorkItem::Window(a0, a1, b0, b1) => 3 * ((a1 as int) - (a0 as int) + (b1 as int) - (
        b0 as int)) + 2,
        WorkItem::Emit(_, _, _) => 1,
    }
}

spec fn stack_measure(items: Seq<WorkItem>) -> int
    decreases items.len(),
{
    if items.len() == 0 {
        0
    } else {
        item_measure(items.last()) + stack_measure(items.drop_last())
    }
}

proof fn lemma_stack_measure_nonneg(a: Seq<u8>, b: Seq<u8>, items: Seq<WorkItem>)
    requires
        forall|t: int| 0 <= t < items.len() ==> item_wf(a, b, #[trigger] items[t]),
    ensures
        stack_measure(items) >= 0,
    decreases items.len(),
{
    if items.len() > 0 {
        lemma_stack_measure_nonneg(a, b, items.drop_last());
    }
}

proof fn lemma_push_pending(a: Seq<u8>, b: Seq<u8>, items: Seq<WorkItem>, it: WorkItem)
    ensures
        pending_blocks(a, b, items.push(it)) == item_blocks(a, b, it) + pending_blocks(a, b, items),
        stack_measure(items.push(it)) == item_measure(it) + stack_measure(items),
{
    assert(items.push(it).last() == it);
    assert(items.push(it).drop_last() =~= items);
}

/// Decompose the whole of `a` against the whole of `b` into matching blocks,
/// with an explicit work-list in place of recursion. Windows before a match
/// are processed before the match is recorded, so the result comes out
/// sorted by ascending start index in `a`.
pub fn get_matching_blocks(a: &[u8], b: &[u8]) -> (r: Vec<MatchingBlock>)
    ensures
        blocks_view(r@) == blocks_spec(a@, b@, 0, a@.len() as int, 0, b@.len() as int),
        blocks_disjoint_ordered(blocks_view(r@)),
        forall|t: int|
            0 <= t < r@.len() ==> block_in(
                #[trigger] blocks_view(r@)[t],
                0,
                a@.len() as int,
                0,
                b@.len() as int,
            ),
{
    proof {
        lemma_blocks_wf(a@, b@, 0, a@.len() as int, 0, b@.len() as int);
    }
    let ghost full = blocks_spec(a@, b@, 0, a@.len() as int, 0, b@.len() as int);
    let mut stack: Vec<WorkItem> = Vec::new();
    let mut blocks: Vec<MatchingBlock> = Vec::new();
    stack.push(WorkItem::Window(0, a.len(), 0, b.len()));
    proof {
        lemma_push_pending(a@, b@, Seq::empty(), WorkItem::Window(0, a.len(), 0, b.len()));
        assert(blocks_view(blocks@) + pending_blocks(a@, b@, stack@) =~= full);
    }
    while stack.len() != 0
        invariant
            forall|t: int| 0 <= t < stack@.len() ==> item_wf(a@, b@, #[trigger] stack@[t]),
            blocks_view(blocks@) + pending_blocks(a@, b@, stack@) == full,
        decreases stack_measure(stack@),
    {
        proof {
            lemma_stack_measure_nonneg(a@, b@, stack@);
            lemma_stack_measure_nonneg(a@, b@, stack@.drop_last());
        }
        let it = stack.pop().unwrap();
        match it {
            WorkItem::Window(a0, a1, b0, b1) => {
                let ghost rest = stack@;
                let ghost w = blocks_spec(a@, b@, a0 as int, a1 as int, b0 as int, b1 as int);
                let m = find_longest_match(a, b, a0, a1, b0, b1);
                if m.2 > 0 {
                    let ghost gm = (m.0 as int, m.1 as int, m.2 as int);
                    let ghost before = if a0 < m.0 && b0 < m.1 {
                        blocks_spec(a@, b@, a0 as int, m.0 as int, b0 as int, m.1 as int)
                    } else {
                        Seq::<(int, int, int)>::empty()
                    };
                    let ghost after = if m.0 + m.2 < a1 && m.1 + m.2 < b1 {
                        blocks_spec(a@, b@, m.0 + m.2, a1 as int, m.1 + m.2, b1 as int)
                    } else {
                        Seq::<(int, int, int)>::empty()
                    };
                    proof {
                        assert(w == before + seq![gm] + after);
                    }
                    if m.0 + m.2 < a1 && m.1 + m.2 < b1 {
                        let wa = WorkItem::Window(m.0 + m.2, a1, m.1 + m.2, b1);
                        let ghost gwa = wa;
                        let ghost pre = stack@;
                        stack.push(wa);
                        proof {
                            lemma_push_pending(a@, b@, pre, gwa);
                        }
                    }
                    let ghost pre_emit = stack@;
                    stack.push(WorkItem::Emit(m.0, m.1, m.2));
                    proof {
                        lemma_push_pending(a@, b@, pre_emit, WorkItem::Emit(m.0, m.1, m.2));
                    }
                    if a0 < m.0 && b0 < m.1 {
                        let ghost pre_before = stack@;
                        stack.push(WorkItem::Window(a0, m.0, b0, m.1));
                        proof {
                            lemma_push_pending(a@, b@, pre_before, WorkItem::Window(a0, m.0, b0, m.1));
                        }
                    }
                    proof {
                        assert(pending_blocks(a@, b@, stack@) =~= w + pending_blocks(a@, b@, rest));
                        assert(blocks_view(blocks@) + pending_blocks(a@, b@, stack@) =~= full);
                        lemma_stack_measure_nonneg(a@, b@, stack@);
                    }
                } else {
                    proof {
                        assert(w =~= Seq::<(int, int, int)>::empty());
                        assert(blocks_view(blocks@) + pending_blocks(a@, b@, stack@) =~= full);
                    }
                }
            },
            WorkItem::Emit(bi, bj, k) => {
                let ghost old_blocks = blocks@;
                blocks.push(MatchingBlock { a_index: bi, b_index: bj, length: k });
                proof {
                    assert(blocks_view(blocks@) =~= blocks_view(old_blocks) + seq![
                        (bi as int, bj as int, k as int),
                    ]);
                    assert(blocks_view(blocks@) + pending_blocks(a@, b@, stack@) =~= full);
                }
            },
        }
    }
    blocks
}

// ----------------------------------------------------------------------------
// Totals over block lists, and the facts the similarity ratio rests on.
// ----------------------------------------------------------------------------

/// Sum of the block lengths of a block list.
pub open spec fn total_len(blocks: Seq<(int, int, int)>) -> int
    decreases blocks.len(),
{
    if blocks.len() == 0 {
        0
    } else {
        total_len(blocks.drop_last()) + blocks.last().2
    }
}

/// A block that lies inside the window and matches at least one byte.
pub open spec fn block_in(blk: (int, int, int), alo: int, ahi: int, blo: int, bhi: int) -> bool {
    &&& alo <= blk.0
    &&& blk.0 + blk.2 <= ahi
    &&& blo <= blk.1
    &&& blk.1 + blk.2 <= bhi
    &&& blk.2 > 0
}

/// Pairwise non-overlapping in both strings, and ordered by ascending start
/// index in both.
pub open spec fn blocks_disjoint_ordered(blocks: Seq<(int, int, int)>) -> bool {
    forall|p: int, q: int|
        0 <= p < q < blocks.len() ==> {
            &&& (#[trigger] blocks[p]).0 + blocks[p].2 <= (#[trigger] blocks[q]).0
            &&& blocks[p].1 + blocks[p].2 <= blocks[q].1
        }
}

proof fn lemma_total_len_concat(s1: Seq<(int, int, int)>, s2: Seq<(int, int, int)>)
    ensures
        total_len(s1 + s2) == total_len(s1) + total_len(s2),
    decreases s2.len(),
{
    if s2.len() == 0 {
        assert(s1 + s2 =~= s1);
    } else {
        assert((s1 + s2).drop_last() =~= s1 + s2.drop_last());
        assert((s1 + s2).last() == s2.last());
        lemma_total_len_concat(s1, s2.drop_last());
    }
}

/// The blocks of a window lie inside it, are pairwise non-overlapping and
/// ordered in both strings, and match no more bytes than either side holds.
pub proof fn lemma_blocks_wf(a: Seq<u8>, b: Seq<u8>, alo: int, ahi: int, blo: int, bhi: int)
    requires
        0 <= alo <= ahi <= a.len(),
        0 <= blo <= bhi <= b.len(),
    ensures
        forall|t: int|
            0 <= t < blocks_spec(a, b, alo, ahi, blo, bhi).len() ==> block_in(
                #[trigger] blocks_spec(a, b, alo, ahi, blo, bhi)[t],
                alo,
                ahi,
                blo,
                bhi,
            ),
        0 <= total_len(blocks_spec(a, b, alo, ahi, blo, bhi)),
        total_len(blocks_spec(a, b, alo, ahi, blo, bhi)) <= ahi - alo,
        total_len(blocks_spec(a, b, alo, ahi, blo, bhi)) <= bhi - blo,
        blocks_disjoint_ordered(blocks_spec(a, b, alo, ahi, blo, bhi)),
    decreases (ahi - alo) + (bhi - blo),
{
    lemma_longest_match_in_window(a, b, alo, ahi, blo, bhi);
    let m = longest_match(a, b, alo, ahi, blo, bhi);
    let bs = blocks_spec(a, b, alo, ahi, blo, bhi);
    if m.2 > 0 {
        let before = if alo < m.0 && blo < m.1 {
            blocks_spec(a, b, alo, m.0, blo, m.1)
        } else {
            Seq::<(int, int, int)>::empty()
        };
        let after = if m.0 + m.2 < ahi && m.1 + m.2 < bhi {
            blocks_spec(a, b, m.0 + m.2, ahi, m.1 + m.2, bhi)
        } else {
            Seq::<(int, int, int)>::empty()
        };
        assert(bs == before + seq![m] + after);
        if alo < m.0 && blo < m.1 {
            lemma_blocks_wf(a, b, alo, m.0, blo, m.1);
        }
        if m.0 + m.2 < ahi && m.1 + m.2 < bhi {
            lemma_blocks_wf(a, b, m.0 + m.2, ahi, m.1 + m.2, bhi);
        }
        lemma_total_len_concat(before, seq![m]);
        lemma_total_len_concat(before + seq![m], after);
        assert(seq![m].drop_last() =~= Seq::<(int, int, int)>::empty());
        assert(seq![m].last() == m);
        assert(total_len(Seq::<(int, int, int)>::empty()) == 0);
        assert(total_len(seq![m]) == m.2);
        let nb = before.len() as int;
        assert(forall|t: int| 0 <= t < nb ==> bs[t] == before[t]);
        assert(bs[nb] == m);
        assert(forall|t: int| nb < t < bs.len() ==> bs[t] == after[t - nb - 1]);
        assert forall|t: int| 0 <= t < bs.len() implies block_in(#[trigger] bs[t], alo, ahi, blo, bhi) by {
            if t < nb {
                assert(block_in(before[t], alo, m.0, blo, m.1));
            } else if t > nb {
                assert(block_in(after[t - nb - 1], m.0 + m.2, ahi, m.1 + m.2, bhi));
            }
        }
        assert forall|p: int, q: int| 0 <= p < q < bs.len() implies {
            &&& (#[trigger] bs[p]).0 + bs[p].2 <= (#[trigger] bs[q]).0
            &&& bs[p].1 + bs[p].2 <= bs[q].1
        } by {
            if p < nb {
                assert(block_in(before[p], alo, m.0, blo, m.1));
            } else if p > nb {
                assert(block_in(after[p - nb - 1], m.0 + m.2, ahi, m.1 + m.2, bhi));
            }
            if q < nb {
                assert(block_in(before[q], alo, m.0, blo, m.1));
            } else if q > nb {
                assert(block_in(after[q - nb - 1], m.0 + m.2, ahi, m.1 + m.2, bhi));
            }
        }
    }
}

proof fn lemma_total_len_take_step(s: Seq<(int, int, int)>, i: int)
    requires
        0 <= i < s.len(),
    ensures
        total_len(s.take(i + 1)) == total_len(s.take(i)) + s[i].2,
{
    assert(s.take(i + 1).drop_last() =~= s.take(i));
    assert(s.take(i + 1).last() == s[i]);
}

proof fn lemma_total_len_take_le(s: Seq<(int, int, int)>, i: int)
    requires
        0 <= i <= s.len(),
        forall|t: int| 0 <= t < s.len() ==> (#[trigger] s[t]).2 >= 0,
    ensures
        total_len(s.take(i)) <= total_len(s),
    decreases s.len() - i,
{
    if i < s.len() {
        lemma_total_len_take_step(s, i);
        lemma_total_len_take_le(s, i + 1);
    } else {
        assert(s.take(i) =~= s);
    }
}

// ----------------------------------------------------------------------------
// The similarity ratio.
// ----------------------------------------------------------------------------

/// Numerator of the similarity of `a` and `b`: twice the matched total, or 1
/// when both strings are empty.
pub open spec fn sim_num(a: Seq<u8>, b: Seq<u8>) -> int {
    if a.len() == 0 && b.len() == 0 {
        1
    } else {
        2 * total_len(blocks_spec(a, b, 0, a.len() as int, 0, b.len() as int))
    }
}

/// Denominator of the similarity of `a` and `b`: the combined length, or 1
/// when both strings are empty.
pub open spec fn sim_den(a: Seq<u8>, b: Seq<u8>) -> int {
    if a.len() == 0 && b.len() == 0 {
        1
    } else {
        a.len() + b.len() as int
    }
}

/// The similarity of `a` and `b` as one rational value.
pub open spec fn sim_ratio(a: Seq<u8>, b: Seq<u8>) -> Ratio {
    Ratio { num: sim_num(a, b) as u64, den: sim_den(a, b) as u64 }
}

/// Similarity always lies between 0 and 1: the numerator never exceeds the
/// denominator, and the denominator is positive.
pub proof fn lemma_similarity_range(a: Seq<u8>, b: Seq<u8>)
    ensures
        0 <= sim_num(a, b),
        sim_num(a, b) <= sim_den(a, b),
        1 <= sim_den(a, b),
{
    if a.len() != 0 || b.len() != 0 {
        lemma_blocks_wf(a, b, 0, a.len() as int, 0, b.len() as int);
    }
}

/// Similarity ratio of two byte strings: 1 when both are empty, otherwise
/// `2 * M / (len(a) + len(b))` where `M` is the total length of the matching
/// blocks. The result is exact and unreduced.
#[verifier::loop_isolation(false)]
pub fn ratio(a: &[u8], b: &[u8]) -> (r: Ratio)
    requires
        a@.len() + b@.len() <= u64::MAX,
    ensures
        r == sim_ratio(a@, b@),
        r.num == sim_num(a@, b@),
        r.den == sim_den(a@, b@),
        r.wf(),
        r.num <= r.den,
{
    proof {
        lemma_similarity_range(a@, b@);
    }
    if a.len() == 0 && b.len() == 0 {
        return Ratio { num: 1, den: 1 };
    }
    let blocks = get_matching_blocks(a, b);
    let ghost gb = blocks_view(blocks@);
    proof {
        lemma_blocks_wf(a@, b@, 0, a@.len() as int, 0, b@.len() as int);
    }
    let n = blocks.len();
    let mut total: usize = 0;
    let mut t: usize = 0;
    while t < n
        invariant
            t <= n,
            n == blocks@.len(),
            total as int == total_len(gb.take(t as int)),
        decreases n - t,
    {
        proof {
            lemma_total_len_take_step(gb, t as int);
            lemma_total_len_take_le(gb, t as int + 1);
        }
        total = total + blocks[t].length;
        t = t + 1;
    }
    proof {
        assert(gb.take(n as int) =~= gb);
    }
    let num: u64 = 2 * (total as u64);
    let den: u64 = (a.len() as u64) + (b.len() as u64);
    Ratio { num, den }
}

// ----------------------------------------------------------------------------
// The scan result is the largest run: facts behind the similarity laws.
// ----------------------------------------------------------------------------

proof fn lemma_scan_row_monotone(
    a: Seq<u8>,
    b: Seq<u8>,
    alo: int,
    blo: int,
    bhi: int,
    i: int,
    j: int,
    best: (int, int, int),
)
    ensures
        scan_row(a, b, alo, blo, bhi, i, j, best).2 >= best.2,
    decreases bhi - j,
{
    if j < bhi {
        lemma_scan_row_monotone(a, b, alo, blo, bhi, i, j + 1, scan_step(a, b, alo, blo, best, i, j));
    }
}

proof fn lemma_scan_rows_monotone(
    a: Seq<u8>,
    b: Seq<u8>,
    alo: int,
    ahi: int,
    blo: int,
    bhi: int,
    i: int,
    best: (int, int, int),
)
    ensures
        scan_rows(a, b, alo, ahi, blo, bhi, i, best).2 >= best.2,
    decreases ahi - i,
{
    if i < ahi {
        lemma_scan_row_monotone(a, b, alo, blo, bhi, i, blo, best);
        lemma_scan_rows_monotone(
            a,
            b,
            alo,
            ahi,
            blo,
            bhi,
            i + 1,
            scan_row(a, b, alo, blo, bhi, i, blo, best),
        );
    }
}

proof fn lemma_scan_row_ge_cell(
    a: Seq<u8>,
    b: Seq<u8>,
    alo: int,
    blo: int,
    bhi: int,
    i: int,
    j: int,
    best: (int, int, int),
    jq: int,
)
    requires
        j <= jq < bhi,
    ensures
        scan_row(a, b, alo, blo, bhi, i, j, best).2 >= run_len(a, b, alo, blo, i, jq),
    decreases bhi - j,
{
    if j == jq {
        lemma_scan_row_monotone(a, b, alo, blo, bhi, i, j + 1, scan_step(a, b, alo, blo, best, i, j));
    } else {
        lemma_scan_row_ge_cell(
            a,
            b,
            alo,
            blo,
            bhi,
            i,
            j + 1,
            scan_step(a, b, alo, blo, best, i, j),
            jq,
        );
    }
}

proof fn lemma_scan_rows_ge_cell(
    a: Seq<u8>,
    b: Seq<u8>,
    alo: int,
    ahi: int,
    blo: int,
    bhi: int,
    i: int,
    best: (int, int, int),
    iq: int,
    jq: int,
)
    requires
        i <= iq < ahi,
        blo <= jq < bhi,
    ensures
        scan_rows(a, b, alo, ahi, blo, bhi, i, best).2 >= run_len(a, b, alo, blo, iq, jq),
    decreases ahi - i,
{
    if i == iq {
        lemma_scan_row_ge_cell(a, b, alo, blo, bhi, i, blo, best, jq);
        lemma_scan_rows_monotone(
            a,
            b,
            alo,
            ahi,
            blo,
            bhi,
            i + 1,
            scan_row(a, b, alo, blo, bhi, i, blo, best),
        );
    } else {
        lemma_scan_rows_ge_cell(
            a,
            b,
            alo,
            ahi,
            blo,
            bhi,
            i + 1,
            scan_row(a, b, alo, blo, bhi, i, blo, best),
            iq,
            jq,
        );
    }
}

/// The longest match is at least as long as the run ending at any one cell.
pub proof fn lemma_longest_match_ge_cell(
    a: Seq<u8>,
    b: Seq<u8>,
    alo: int,
    ahi: int,
    blo: int,
    bhi: int,
    iq: int,
    jq: int,
)
    requires
        alo <= iq < ahi,
        blo <= jq < bhi,
    ensures
        longest_match(a, b, alo, ahi, blo, bhi).2 >= run_len(a, b, alo, blo, iq, jq),
{
    lemma_scan_rows_ge_cell(a, b, alo, ahi, blo, bhi, alo, (alo, blo, 0), iq, jq);
}

proof fn lemma_run_len_diag(s: Seq<u8>, i: int)
    requires
        0 <= i < s.len(),
    ensures
        run_len(s, s, 0, 0, i, i) == i + 1,
    decreases i,
{
    if i > 0 {
        lemma_run_len_diag(s, i - 1);
    }
}

// ----------------------------------------------------------------------------
// Similarity laws.
// ----------------------------------------------------------------------------

/// Two empty strings are fully similar: the ratio is exactly 1.
pub proof fn lemma_similarity_both_empty(a: Seq<u8>, b: Seq<u8>)
    requires
        a.len() == 0,
        b.len() == 0,
    ensures
        sim_num(a, b) == 1,
        sim_den(a, b) == 1,
{
}

proof fn lemma_scan_rows_fixed_when_b_empty(
    a: Seq<u8>,
    b: Seq<u8>,
    alo: int,
    ahi: int,
    blo: int,
    bhi: int,
    i: int,
    best: (int, int, int),
)
    requires
        blo >= bhi,
    ensures
        scan_rows(a, b, alo, ahi, blo, bhi, i, best) == best,
    decreases ahi - i,
{
    if i < ahi {
        lemma_scan_rows_fixed_when_b_empty(a, b, alo, ahi, blo, bhi, i + 1, best);
    }
}

/// When exactly one of the strings is empty the similarity is exactly 0.
pub proof fn lemma_similarity_one_empty(a: Seq<u8>, b: Seq<u8>)
    requires
        a.len() == 0 || b.len() == 0,
        a.len() + b.len() > 0,
    ensures
        sim_num(a, b) == 0,
        sim_den(a, b) == a.len() + b.len(),
{
    if b.len() == 0 {
        lemma_scan_rows_fixed_when_b_empty(
            a,
            b,
            0,
            a.len() as int,
            0,
            b.len() as int,
            0,
            (0, 0, 0),
        );
    }
    assert(longest_match(a, b, 0, a.len() as int, 0, b.len() as int).2 == 0);
    assert(blocks_spec(a, b, 0, a.len() as int, 0, b.len() as int) =~= Seq::<(int, int, int)>::empty());
}

/// The denominator of the similarity is symmetric in the two strings for
/// every input: only the matched total depends on the argument order.
pub proof fn lemma_similarity_den_symmetric(a: Seq<u8>, b: Seq<u8>)
    ensures
        sim_den(a, b) == sim_den(b, a),
{
}

/// When either side is empty the whole similarity is the same in either
/// argument order.
pub proof fn lemma_similarity_symmetric_when_one_side_empty(a: Seq<u8>, b: Seq<u8>)
    requires
        a.len() == 0 || b.len() == 0,
    ensures
        sim_num(a, b) == sim_num(b, a),
        sim_den(a, b) == sim_den(b, a),
{
    if a.len() == 0 && b.len() == 0 {
        lemma_similarity_both_empty(a, b);
        lemma_similarity_both_empty(b, a);
    } else {
        lemma_similarity_one_empty(a, b);
        lemma_similarity_one_empty(b, a);
    }
}

/// A non-empty string is fully similar to itself: the single matching block
/// spans the whole string, so numerator and denominator agree.
pub proof fn lemma_similarity_self(s: Seq<u8>)
    requires
        s.len() >= 1,
    ensures
        sim_num(s, s) == sim_den(s, s),
        sim_num(s, s) == 2 * s.len(),
{
    let n = s.len() as int;
    lemma_run_len_diag(s, n - 1);
    lemma_longest_match_ge_cell(s, s, 0, n, 0, n, n - 1, n - 1);
    lemma_longest_match_in_window(s, s, 0, n, 0, n);
    let m = longest_match(s, s, 0, n, 0, n);
    assert(m.2 == n && m.0 == 0 && m.1 == 0);
    let bs = blocks_spec(s, s, 0, n, 0, n);
    assert(bs == Seq::<(int, int, int)>::empty() + seq![m] + Seq::<(int, int, int)>::empty());
    assert(bs =~= seq![m]);
    assert(seq![m].drop_last() =~= Seq::<(int, int, int)>::empty());
    assert(seq![m].last() == m);
    assert(total_len(Seq::<(int, int, int)>::empty()) == 0);
    assert(total_len(bs) == n);
}

/// Standalone similarity surface: the ratio of the two byte strings.
pub fn string_similarity(a: &[u8], b: &[u8]) -> (r: Ratio)
    requires
        a@.len() + b@.len() <= u64::MAX,
    ensures
        r == sim_ratio(a@, b@),
        r.num == sim_num(a@, b@),
        r.den == sim_den(a@, b@),
        r.wf(),
        r.num <= r.den,
{
    ratio(a, b)
}

} // verus!

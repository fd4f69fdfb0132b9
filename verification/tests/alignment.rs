use word_alignment::align::{
    align_string_lists_chunked, AlignError, AlignmentRecord, CandidateEntry,
};
use word_alignment::matcher::{find_longest_match, get_matching_blocks, ratio, string_similarity};
use word_alignment::rational::Ratio;

fn bytes(s: &str) -> Vec<u8> {
    s.as_bytes().to_vec()
}

fn cand(word: &str, tag: &str) -> CandidateEntry {
    CandidateEntry { word: bytes(word), tag: bytes(tag) }
}

fn sim(a: &str, b: &str) -> Ratio {
    string_similarity(a.as_bytes(), b.as_bytes())
}

fn as_f64(r: Ratio) -> f64 {
    r.num as f64 / r.den as f64
}

fn records_eq(x: &AlignmentRecord, y: &AlignmentRecord) -> bool {
    x.reference_word == y.reference_word
        && x.matched_word == y.matched_word
        && x.similarity == y.similarity
}

#[test]
fn similarity_of_two_empty_strings_is_one() {
    let r = sim("", "");
    assert_eq!(r, Ratio { num: 1, den: 1 });
    assert_eq!(as_f64(r), 1.0);
}

#[test]
fn similarity_of_empty_and_nonempty_is_zero() {
    let r = sim("", "x");
    assert_eq!(r.num, 0);
    assert_eq!(as_f64(r), 0.0);
    let r2 = sim("x", "");
    assert_eq!(r2.num, 0);
    assert_eq!(as_f64(r2), 0.0);
}

#[test]
fn similarity_of_a_string_with_itself_is_one() {
    for s in ["a", "ab", "hello", "hello world"] {
        let r = sim(s, s);
        assert_eq!(r.num, r.den);
        assert_eq!(as_f64(r), 1.0);
    }
}

#[test]
fn similarity_is_symmetric_on_typical_pairs() {
    for (a, b) in [("cat", "cats"), ("dog", "doge"), ("abc", "cab"), ("ab", "ba"), ("", "xy")] {
        let r1 = sim(a, b);
        let r2 = sim(b, a);
        // Equal as rationals: same combined length, same matched total.
        assert_eq!(r1.den, r2.den);
        assert_eq!(r1.num, r2.num);
    }
}

#[test]
fn similarity_stays_between_zero_and_one() {
    for (a, b) in [
        ("", ""),
        ("", "xyz"),
        ("cat", "cats"),
        ("xyz", "abc"),
        ("ppdqq", "qqppzd"),
        ("aaaa", "aa"),
    ] {
        let r = sim(a, b);
        assert!(r.den >= 1);
        assert!(r.num <= r.den);
        let v = as_f64(r);
        assert!((0.0..=1.0).contains(&v));
    }
}

#[test]
fn ratio_is_exact_and_unreduced() {
    assert_eq!(sim("cat", "cats"), Ratio { num: 6, den: 7 });
    assert_eq!(sim("ab", "ba"), Ratio { num: 2, den: 4 });
    assert_eq!(sim("abc", "cab"), Ratio { num: 4, den: 6 });
    assert_eq!(ratio(b"dog", b"doge"), Ratio { num: 6, den: 7 });
}

#[test]
fn tie_break_of_equal_longest_runs_follows_scan_order() {
    // "pp" and "qq" are equally long common runs that cross; each scan order
    // commits to the run whose end cell it meets first, and the leftover "d"
    // only survives one of the two choices.
    assert_eq!(sim("ppdqq", "qqppzd"), Ratio { num: 6, den: 11 });
    assert_eq!(sim("qqppzd", "ppdqq"), Ratio { num: 4, den: 11 });
}

#[test]
fn longest_match_prefers_first_run_in_scan_order() {
    let a = b"abxcd";
    let b = b"abycd";
    assert_eq!(find_longest_match(a, b, 0, a.len(), 0, b.len()), (0, 0, 2));
}

#[test]
fn longest_match_of_empty_window_is_zero_at_window_start() {
    let a = b"abc";
    let b = b"abc";
    assert_eq!(find_longest_match(a, b, 1, 1, 0, 3), (1, 0, 0));
    assert_eq!(find_longest_match(a, b, 0, 3, 2, 2), (0, 2, 0));
}

#[test]
fn matching_blocks_are_sorted_and_disjoint() {
    let blocks = get_matching_blocks(b"abxcd", b"abycd");
    assert_eq!(blocks.len(), 2);
    assert_eq!((blocks[0].a_index, blocks[0].b_index, blocks[0].length), (0, 0, 2));
    assert_eq!((blocks[1].a_index, blocks[1].b_index, blocks[1].length), (3, 3, 2));
}

#[test]
fn matching_blocks_of_identical_strings_span_the_whole_string() {
    let blocks = get_matching_blocks(b"abc", b"abc");
    assert_eq!(blocks.len(), 1);
    assert_eq!((blocks[0].a_index, blocks[0].b_index, blocks[0].length), (0, 0, 3));
}

#[test]
fn matching_blocks_of_empty_inputs_are_empty() {
    assert_eq!(get_matching_blocks(b"", b"").len(), 0);
    assert_eq!(get_matching_blocks(b"abc", b"").len(), 0);
    assert_eq!(get_matching_blocks(b"", b"abc").len(), 0);
}

#[test]
fn scenario_both_reference_words_match() {
    let reference = vec![bytes("cat"), bytes("dog")];
    let candidates = vec![cand("cats", "NOUN"), cand("doge", "NOUN")];
    let threshold = Ratio { num: 1, den: 2 };
    let out = align_string_lists_chunked(&reference, &candidates, threshold, 10).unwrap();
    assert_eq!(out.len(), 2);
    assert_eq!(out[0].reference_word, bytes("cat"));
    assert_eq!(out[0].matched_word, Some(bytes("cats")));
    assert_eq!(out[0].similarity, Ratio { num: 6, den: 7 });
    assert!((as_f64(out[0].similarity) - 6.0 / 7.0).abs() < 1e-12);
    assert_eq!(out[1].reference_word, bytes("dog"));
    assert_eq!(out[1].matched_word, Some(bytes("doge")));
    assert_eq!(out[1].similarity, Ratio { num: 6, den: 7 });
}

#[test]
fn scenario_no_shared_content_yields_no_match() {
    let reference = vec![bytes("xyz")];
    let candidates = vec![cand("abc", "X")];
    let threshold = Ratio { num: 1, den: 2 };
    let out = align_string_lists_chunked(&reference, &candidates, threshold, 4).unwrap();
    assert_eq!(out.len(), 1);
    assert_eq!(out[0].reference_word, bytes("xyz"));
    assert_eq!(out[0].matched_word, None);
    assert_eq!(out[0].similarity, Ratio { num: 0, den: 1 });
    assert_eq!(as_f64(out[0].similarity), 0.0);
}

#[test]
fn scenario_first_of_two_equal_candidates_wins() {
    let reference = vec![bytes("ab")];
    let candidates = vec![cand("ab", "A"), cand("ab", "B")];
    let threshold = Ratio { num: 1, den: 2 };
    let out = align_string_lists_chunked(&reference, &candidates, threshold, 3).unwrap();
    assert_eq!(out.len(), 1);
    assert_eq!(out[0].matched_word, Some(bytes("ab")));
    assert_eq!(out[0].similarity, Ratio { num: 4, den: 4 });
    assert_eq!(as_f64(out[0].similarity), 1.0);
}

#[test]
fn scenario_used_candidate_is_not_consumed_twice() {
    let reference = vec![bytes("ab"), bytes("ab")];
    let candidates = vec![cand("ab", "A")];
    let threshold = Ratio { num: 1, den: 2 };
    let out = align_string_lists_chunked(&reference, &candidates, threshold, 7).unwrap();
    assert_eq!(out.len(), 2);
    assert_eq!(out[0].matched_word, Some(bytes("ab")));
    assert_eq!(as_f64(out[0].similarity), 1.0);
    assert_eq!(out[1].matched_word, None);
    assert_eq!(out[1].similarity, Ratio { num: 0, den: 1 });
}

#[test]
fn equal_scores_go_to_the_earliest_candidate() {
    let reference = vec![bytes("abc")];
    let candidates = vec![cand("abx", "X"), cand("abY", "Y")];
    let threshold = Ratio { num: 1, den: 2 };
    let out = align_string_lists_chunked(&reference, &candidates, threshold, 1).unwrap();
    assert_eq!(out[0].matched_word, Some(bytes("abx")));
    assert_eq!(out[0].similarity, Ratio { num: 4, den: 6 });
}

#[test]
fn strictly_better_later_candidate_still_wins() {
    let reference = vec![bytes("abc")];
    let candidates = vec![cand("abx", "X"), cand("abc", "C")];
    let threshold = Ratio { num: 1, den: 2 };
    let out = align_string_lists_chunked(&reference, &candidates, threshold, 1).unwrap();
    assert_eq!(out[0].matched_word, Some(bytes("abc")));
    assert_eq!(out[0].similarity, Ratio { num: 6, den: 6 });
}

#[test]
fn score_exactly_at_threshold_is_eligible() {
    let reference = vec![bytes("cat")];
    let candidates = vec![cand("cats", "NOUN")];
    let exactly = Ratio { num: 6, den: 7 };
    let out = align_string_lists_chunked(&reference, &candidates, exactly, 1).unwrap();
    assert_eq!(out[0].matched_word, Some(bytes("cats")));
}

#[test]
fn score_below_threshold_is_never_matched() {
    let reference = vec![bytes("cat")];
    let candidates = vec![cand("cats", "NOUN")];
    // 6/7 is about 0.857, so a threshold of 0.858 rejects it.
    let above = Ratio { num: 858, den: 1000 };
    let out = align_string_lists_chunked(&reference, &candidates, above, 1).unwrap();
    assert_eq!(out[0].matched_word, None);
    assert_eq!(out[0].similarity, Ratio { num: 0, den: 1 });
}

#[test]
fn zero_threshold_still_needs_a_shared_byte() {
    let reference = vec![bytes("xyz")];
    let candidates = vec![cand("abc", "X")];
    let zero = Ratio { num: 0, den: 1 };
    let out = align_string_lists_chunked(&reference, &candidates, zero, 1).unwrap();
    assert_eq!(out[0].matched_word, None);
}

#[test]
fn threshold_above_one_rejects_everything() {
    let reference = vec![bytes("cat"), bytes("dog")];
    let candidates = vec![cand("cat", "A"), cand("dog", "B")];
    let above_one = Ratio { num: 3, den: 2 };
    let out = align_string_lists_chunked(&reference, &candidates, above_one, 1).unwrap();
    assert_eq!(out[0].matched_word, None);
    assert_eq!(out[1].matched_word, None);
}

#[test]
fn alignment_result_is_the_same_for_every_chunk_size() {
    let reference = vec![bytes("cat"), bytes("dog"), bytes("bird"), bytes("fish"), bytes("cow")];
    let candidates = vec![
        cand("cats", "NOUN"),
        cand("doge", "NOUN"),
        cand("birds", "NOUN"),
        cand("fishy", "ADJ"),
    ];
    let threshold = Ratio { num: 1, den: 2 };
    let len = reference.len();
    let base = align_string_lists_chunked(&reference, &candidates, threshold, 1).unwrap();
    for k in [2, len, len + 5] {
        let other = align_string_lists_chunked(&reference, &candidates, threshold, k).unwrap();
        assert_eq!(base.len(), other.len());
        for t in 0..base.len() {
            assert!(records_eq(&base[t], &other[t]));
        }
    }
}

#[test]
fn chunk_size_zero_is_refused() {
    let reference = vec![bytes("cat")];
    let candidates = vec![cand("cats", "NOUN")];
    let threshold = Ratio { num: 1, den: 2 };
    let out = align_string_lists_chunked(&reference, &candidates, threshold, 0);
    assert_eq!(out.unwrap_err(), AlignError::InvalidChunkSize);
}

#[test]
fn empty_reference_list_yields_empty_output() {
    let reference: Vec<Vec<u8>> = vec![];
    let candidates = vec![cand("cats", "NOUN")];
    let threshold = Ratio { num: 1, den: 2 };
    let out = align_string_lists_chunked(&reference, &candidates, threshold, 50).unwrap();
    assert!(out.is_empty());
}

#[test]
fn empty_candidate_list_yields_only_unmatched_records() {
    let reference = vec![bytes("cat"), bytes("dog")];
    let candidates: Vec<CandidateEntry> = vec![];
    let threshold = Ratio { num: 1, den: 2 };
    let out = align_string_lists_chunked(&reference, &candidates, threshold, 50).unwrap();
    assert_eq!(out.len(), 2);
    for rec in &out {
        assert_eq!(rec.matched_word, None);
        assert_eq!(rec.similarity, Ratio { num: 0, den: 1 });
    }
}

#[test]
fn lengths_are_measured_in_bytes() {
    // A two-byte encoded character counts as two bytes on each side.
    let word = "\u{e9}";
    assert_eq!(word.as_bytes().len(), 2);
    let r = sim(word, word);
    assert_eq!(r, Ratio { num: 4, den: 4 });
}

#[test]
fn rational_comparisons_are_exact() {
    let a = Ratio { num: 6, den: 7 };
    let b = Ratio { num: 857, den: 1000 };
    let c = Ratio { num: 858, den: 1000 };
    assert!(a.gt(&b));
    assert!(!a.gt(&c));
    assert!(a.ge(&a));
    assert!(c.ge(&a));
    assert!(!b.ge(&a));
}

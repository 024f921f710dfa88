use transcript_align::align::{align, text_align};
use transcript_align::cost::{gap_cost, pairwise_cost, text_pair_cost};
use transcript_align::token::{katakana2hiragana, token_infos, TokenInfo};

fn strings(texts: &[&str]) -> Vec<String> {
    texts.iter().map(|t| t.to_string()).collect()
}

fn info(text: &str) -> TokenInfo {
    TokenInfo::new(text.to_string())
}

#[test]
fn identical_sequences_pair_index_by_index() {
    let r = text_align(strings(&["a", "b", "c"]), strings(&["a", "b", "c"]));
    assert_eq!(
        r,
        vec![(Some(0), Some(0)), (Some(1), Some(1)), (Some(2), Some(2))]
    );
}

#[test]
fn long_identical_sequences_pair_index_by_index() {
    let texts: Vec<String> = (0..300).map(|i| format!("w{}", i % 7)).collect();
    let r = text_align(texts.clone(), texts);
    let expected: Vec<(Option<usize>, Option<usize>)> =
        (0..300).map(|i| (Some(i), Some(i))).collect();
    assert_eq!(r, expected);
}

#[test]
fn empty_sequences_align_to_nothing() {
    let r = text_align(vec![], vec![]);
    assert_eq!(r, vec![]);
}

#[test]
fn one_empty_side_gives_all_gaps() {
    let r = text_align(strings(&["a", "b"]), vec![]);
    assert_eq!(r, vec![(Some(0), None), (Some(1), None)]);
    let r = text_align(vec![], strings(&["a", "b"]));
    assert_eq!(r, vec![(None, Some(0)), (None, Some(1))]);
}

#[test]
fn every_index_is_covered_once_and_in_order() {
    let a = strings(&["The", " ", "quick", " ", "brwn", " ", "fox", "!", "\n"]);
    let b = strings(&["the", " ", "quick", ",", " ", "brown", " ", "red", " ", "fox", "\n"]);
    let r = text_align(a.clone(), b.clone());
    let sources: Vec<usize> = r.iter().filter_map(|p| p.0).collect();
    let references: Vec<usize> = r.iter().filter_map(|p| p.1).collect();
    assert_eq!(sources, (0..a.len()).collect::<Vec<usize>>());
    assert_eq!(references, (0..b.len()).collect::<Vec<usize>>());
    assert!(r.iter().all(|p| p.0.is_some() || p.1.is_some()));
}

#[test]
fn misheard_words_pair_with_what_was_meant() {
    let r = text_align(strings(&["Hllo", "wrld"]), strings(&["Hello", "world", "\n"]));
    assert_eq!(r, vec![(Some(0), Some(0)), (Some(1), Some(1)), (None, Some(2))]);
}

#[test]
fn pairing_wins_a_tie_and_insert_comes_last() {
    let r = align(1, 1, |_, _| 5, |_, _| 10);
    assert_eq!(r, vec![(Some(0), Some(0))]);
    let r = align(1, 1, |_, _| 5, |_, _| 11);
    assert_eq!(r, vec![(Some(0), None), (None, Some(0))]);
}

#[test]
fn align_asks_each_cost_once_and_takes_the_cheapest() {
    let gaps = |is_b: bool, i: usize| if is_b { 3 + i as u128 } else { 4 };
    let pairs = |i: usize, j: usize| if i == j + 1 { 0 } else { 100 };
    let r = align(3, 2, gaps, pairs);
    assert_eq!(
        r,
        vec![(Some(0), None), (Some(1), Some(0)), (Some(2), Some(1))]
    );
}

#[test]
fn align_with_nothing_on_one_side() {
    let r = align(0, 2, |_, _| 1, |_, _| 1);
    assert_eq!(r, vec![(None, Some(0)), (None, Some(1))]);
    let r = align(2, 0, |_, _| 1, |_, _| 1);
    assert_eq!(r, vec![(Some(0), None), (Some(1), None)]);
    let r = align(0, 0, |_, _| 1, |_, _| 1);
    assert_eq!(r, vec![]);
}

#[test]
fn equal_texts_cost_their_position_only() {
    let a = info("same");
    assert_eq!(pairwise_cost(0, 0, &a, &a), 0);
    assert_eq!(pairwise_cost(2, 5, &a, &a), 700);
    assert_eq!(text_pair_cost(2, 5, &a, &a), 693);
}

#[test]
fn case_differs_costs_one_hundredth() {
    let a = info("Hello");
    let b = info("hello");
    assert_eq!(pairwise_cost(0, 0, &a, &b), 100_000);
    assert_eq!(pairwise_cost(3, 4, &a, &b), 100_000 + 700);
    assert_eq!(text_pair_cost(3, 4, &a, &b), 99_000 + 693);
}

#[test]
fn katakana_pairs_with_hiragana() {
    let a = info("カタカナ");
    let b = info("かたかな");
    assert_eq!(a.normalized, "かたかな");
    assert_eq!(pairwise_cost(1, 2, &a, &b), 100_000 + 300);
}

#[test]
fn katakana_folds_within_its_block_only() {
    assert_eq!(katakana2hiragana('ァ'), 'ぁ');
    assert_eq!(katakana2hiragana('ア'), 'あ');
    assert_eq!(katakana2hiragana('ヴ'), 'ゔ');
    assert_eq!(katakana2hiragana('ヵ'), 'ヵ');
    assert_eq!(katakana2hiragana('゠'), '゠');
    assert_eq!(katakana2hiragana('x'), 'x');
}

#[test]
fn keys_are_lowercase() {
    assert_eq!(info("ÀbC").normalized, "àbc");
    assert_eq!(info("İ").normalized, "i\u{307}");
    assert_eq!(info("ΣΑΣ").normalized, "σασ");
    assert_eq!(info("").normalized, "");
    assert_eq!(info("a b\n").text, "a b\n");
}

#[test]
fn keys_are_derived_in_order() {
    let infos = token_infos(strings(&["One", "TWO", "three"]));
    let keys: Vec<&str> = infos.iter().map(|t| t.normalized.as_str()).collect();
    let texts: Vec<&str> = infos.iter().map(|t| t.text.as_str()).collect();
    assert_eq!(keys, vec!["one", "two", "three"]);
    assert_eq!(texts, vec!["One", "TWO", "three"]);
}

#[test]
fn whitespace_around_a_key_costs_two_hundredths() {
    let a = info(" hello");
    let b = info("Hello\n");
    assert_eq!(pairwise_cost(0, 0, &a, &b), 200_000);
    assert_eq!(text_pair_cost(1, 1, &a, &b), 198_000 + 198);
}

#[test]
fn a_prefix_costs_by_how_much_is_missing() {
    let a = info("abc");
    let b = info("abcdef");
    assert_eq!(pairwise_cost(0, 0, &a, &b), 10_000_000 - 6_666_667);
    assert_eq!(pairwise_cost(0, 0, &b, &a), 10_000_000 - 6_666_667);
    let c = info("def");
    assert_eq!(pairwise_cost(0, 0, &b, &c), 10_000_000 - 6_666_667);
    assert_eq!(pairwise_cost(1, 0, &c, &b), 10_000_000 - 6_666_667 + 100);
}

#[test]
fn a_part_counts_only_where_both_are_long_enough() {
    let long = info("xabcx");
    let part = info("abc");
    assert_eq!(pairwise_cost(0, 0, &long, &part), 10_000_000 - 7_500_000);
    assert_eq!(pairwise_cost(0, 0, &part, &long), 10_000_000 - 7_500_000);
    let short = info("xay");
    let one = info("a");
    assert_eq!(pairwise_cost(0, 0, &short, &one), 20_000_000 - 5_000_000);
}

#[test]
fn unlike_texts_cost_between_one_and_two() {
    let a = info("abc");
    let b = info("xyz");
    assert_eq!(pairwise_cost(0, 0, &a, &b), 10_000_000);
    let c = info("wxyz!");
    assert_eq!(pairwise_cost(0, 0, &a, &c), 20_000_000 - 7_500_000);
    assert_eq!(text_pair_cost(0, 0, &a, &c), 12_375_000);
}

#[test]
fn lengths_are_counted_in_bytes() {
    let a = info("あ");
    let b = info("あい");
    assert_eq!(pairwise_cost(0, 0, &a, &b), 10_000_000 - 6_666_667);
    let c = info("xあy");
    assert_eq!(pairwise_cost(0, 0, &c, &a), 10_000_000 - 7_500_000);
}

#[test]
fn gap_is_cheap_for_punctuation() {
    assert_eq!(gap_cost(&info("word")), 10_000_000);
    assert_eq!(gap_cost(&info("...")), 1_000_000);
    assert_eq!(gap_cost(&info("")), 1_000_000);
    assert_eq!(gap_cost(&info(" \n")), 1_000_000);
    assert_eq!(gap_cost(&info(" a")), 10_000_000);
    assert_eq!(gap_cost(&info("、7")), 10_000_000);
}

#[test]
fn punctuation_is_left_out_rather_than_paired_with_a_word() {
    let r = text_align(strings(&["well", ",", "then"]), strings(&["well", "then"]));
    assert_eq!(
        r,
        vec![(Some(0), Some(0)), (Some(1), None), (Some(2), Some(1))]
    );
}

fn cost_of_pairs(
    pairs: &[(Option<usize>, Option<usize>)],
    delete: &[u128],
    insert: &[u128],
    pair: &[Vec<u128>],
) -> u128 {
    pairs
        .iter()
        .map(|p| match *p {
            (Some(i), Some(j)) => pair[i][j],
            (Some(i), None) => delete[i],
            (None, Some(j)) => insert[j],
            (None, None) => 0,
        })
        .sum()
}

fn least_cost(i: usize, j: usize, delete: &[u128], insert: &[u128], pair: &[Vec<u128>]) -> u128 {
    if i == 0 && j == 0 {
        return 0;
    }
    let mut best = u128::MAX;
    if i > 0 && j > 0 {
        best = best.min(least_cost(i - 1, j - 1, delete, insert, pair) + pair[i - 1][j - 1]);
    }
    if i > 0 {
        best = best.min(least_cost(i - 1, j, delete, insert, pair) + delete[i - 1]);
    }
    if j > 0 {
        best = best.min(least_cost(i, j - 1, delete, insert, pair) + insert[j - 1]);
    }
    best
}

#[test]
fn no_alignment_is_cheaper_than_the_one_returned() {
    let mut seed: u64 = 12345;
    let mut next = move || {
        seed = seed.wrapping_mul(6364136223846793005).wrapping_add(1442695040888963407);
        ((seed >> 33) % 7) as u128
    };
    for a in 0..5usize {
        for b in 0..5usize {
            for _ in 0..20 {
                let delete: Vec<u128> = (0..a).map(|_| next()).collect();
                let insert: Vec<u128> = (0..b).map(|_| next()).collect();
                let pair: Vec<Vec<u128>> =
                    (0..a).map(|_| (0..b).map(|_| next()).collect()).collect();
                let r = align(
                    a,
                    b,
                    |is_b, i| if is_b { insert[i] } else { delete[i] },
                    |i, j| pair[i][j],
                );
                let sources: Vec<usize> = r.iter().filter_map(|p| p.0).collect();
                let references: Vec<usize> = r.iter().filter_map(|p| p.1).collect();
                assert_eq!(sources, (0..a).collect::<Vec<usize>>());
                assert_eq!(references, (0..b).collect::<Vec<usize>>());
                assert!(r.iter().all(|p| p.0.is_some() || p.1.is_some()));
                assert_eq!(
                    cost_of_pairs(&r, &delete, &insert, &pair),
                    least_cost(a, b, &delete, &insert, &pair)
                );
            }
        }
    }
}

#[test]
fn a_key_is_derived_from_any_text() {
    assert_eq!(transcript_align::token::normalize("Straße カタ"), "straße かた");
    assert_eq!(transcript_align::token::normalize(""), "");
}

#[test]
fn tables_of_costs_align_like_functions() {
    let delete = vec![4, 4, 4];
    let insert = vec![3, 4];
    let pair = vec![vec![100, 100], vec![0, 100], vec![100, 0]];
    let by_tables = transcript_align::align::align_tables(&delete, &insert, &pair);
    let by_functions = align(
        3,
        2,
        |is_b, i| if is_b { insert[i] } else { delete[i] },
        |i, j| pair[i][j],
    );
    assert_eq!(by_tables, by_functions);
    assert_eq!(
        by_tables,
        vec![(Some(0), None), (Some(1), Some(0)), (Some(2), Some(1))]
    );
}

#[test]
fn unlike_keys_cost_less_than_two_however_unlike_in_length() {
    let short = info("x");
    let long = info(&"y".repeat(20_000_000));
    assert_eq!(pairwise_cost(0, 0, &short, &long), 20_000_000 - 1);
    assert_eq!(pairwise_cost(2, 1, &long, &short), 20_000_000 - 1 + 300);
    let nothing = info("");
    assert_eq!(pairwise_cost(0, 0, &nothing, &short), 10_000_000);
}

#[test]
fn sums_of_costs_beyond_128_bits_are_compared_without_loss() {
    let huge = u128::MAX;
    let r = align(2, 2, |_, _| huge, |i, j| if i == j { huge } else { huge - 1 });
    assert_eq!(r, vec![(Some(0), Some(0)), (Some(1), Some(1))]);
    let r = align(2, 1, |is_b, _| if is_b { huge } else { huge - 1 }, |_, _| huge);
    assert_eq!(r, vec![(Some(0), None), (Some(1), Some(0))]);
    let r = transcript_align::align::align_tables(
        &vec![huge, huge],
        &vec![huge],
        &vec![vec![huge], vec![huge - 1]],
    );
    assert_eq!(r, vec![(Some(0), None), (Some(1), Some(0))]);
}

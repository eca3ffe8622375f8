use local_search::parse;
use local_search::rng::RandomSource;
use local_search::words;
use local_search::specimen::{Specimen, GENOME_MASK};
use local_search::util;
use local_search::word::Word;
use local_search::words::Dictionary;

#[test]
fn div_ceil_exact_values() {
    assert_eq!(util::div_ceil(0, 3), 0);
    assert_eq!(util::div_ceil(9, 3), 3);
    assert_eq!(util::div_ceil(10, 3), 4);
    assert_eq!(util::div_ceil(1, 7), 1);
}

#[test]
fn clamp_exact_values() {
    assert_eq!(util::clamp(5, 0, 10), 5);
    assert_eq!(util::clamp(-5, 0, 10), 0);
    assert_eq!(util::clamp(15, 0, 10), 10);
    assert_eq!(util::clamp(7, 7, 7), 7);
}

#[test]
fn iter_stop_step_progression() {
    assert_eq!(util::iter_stop_step(0, 10, 3), vec![0, 3, 6, 9]);
    assert_eq!(util::iter_stop_step(2, 3, 5), vec![2]);
    assert_eq!(util::iter_stop_step(5, 5, 1), Vec::<usize>::new());
}

#[test]
fn iter_signal_last_flags_only_the_last() {
    let flagged = util::iter_signal_last(vec![10, 20, 30]);
    assert_eq!(flagged, vec![(false, 10), (false, 20), (true, 30)]);
    assert_eq!(util::iter_signal_last(Vec::<u8>::new()), Vec::<(bool, u8)>::new());
}

#[test]
fn specimen_recombine_inner_masks_a_bit_stretch() {
    let s1 = Specimen::new(vec![GENOME_MASK; 5]);
    let s2 = Specimen::new(vec![0; 5]);
    // The top bit alone comes from the zero parent.
    let r = Specimen::recombine_inner(&s1, &s2, 0, 0);
    for k in 0..5 {
        assert_eq!(r.values[k], GENOME_MASK & !(1 << 39));
    }
    // The whole genome comes from the zero parent.
    let r = Specimen::recombine_inner(&s1, &s2, 0, 39);
    for k in 0..5 {
        assert_eq!(r.values[k], 0);
    }
}

#[test]
fn specimen_recombine_outer_swaps_one_gene() {
    let s1 = Specimen::new(vec![1, 2, 3, 4, 5]);
    let s2 = Specimen::new(vec![10, 20, 30, 40, 50]);
    let r = Specimen::recombine_outer(&s1, &s2, 2);
    assert_eq!(r.values, vec![1, 2, 30, 4, 5]);
}

#[test]
fn specimen_mutations() {
    let s = Specimen::new(vec![0, 0, 0, 0, 0]);
    let big = Specimen::mutate_big(&s, 1);
    assert_eq!(big.values, vec![0, GENOME_MASK, 0, 0, 0]);
    let small = Specimen::mutate_small(&s, &vec![0, 3]);
    for k in 0..5 {
        assert_eq!(small.values[k], 0b1001);
    }
}

#[test]
fn word_recombine_and_mutations() {
    let a = Word::new(b"abcd".to_vec());
    let b = Word::new(b"xyz".to_vec());
    assert_eq!(Word::recombine(&a, &b, 2, 1).as_slice(), b"abyz");
    assert_eq!(Word::mutate_lengthen(&a, b"qq".to_vec()).as_slice(), b"abcdqq");
    assert_eq!(Word::mutate_shorten(&a, 1, 2).as_slice(), b"ad");
    let replaced = Word::mutate_replace_letters(&a, &vec![(0, b'z'), (3, b'w')]);
    assert_eq!(replaced.as_slice(), b"zbcw");
}

#[test]
fn word_shuffle_keeps_the_letters() {
    let a = Word::new(b"abcdefgh".to_vec());
    let mut rng = RandomSource::new_seeded(41);
    let shuffled = Word::mutate_shuffle(&a, &mut rng);
    let mut letters = shuffled.as_slice().to_vec();
    letters.sort();
    assert_eq!(letters, b"abcdefgh".to_vec());
}

fn small_dictionary() -> Dictionary {
    let mut counts = vec![0u32; 256];
    let mut values = vec![0u64; 256];
    counts[b'a' as usize] = 2;
    values[b'a' as usize] = 1;
    counts[b'b' as usize] = 1;
    values[b'b' as usize] = 3;
    let acceptable = vec![b"ab".to_vec(), b"aab".to_vec(), b"aaab".to_vec()];
    Dictionary::new(acceptable, counts, values)
}

#[test]
fn dictionary_scores_playable_words() {
    let dict = small_dictionary();
    assert_eq!(dict.slice_value(&b"ab".to_vec()), Some(4));
    assert_eq!(dict.slice_value(&b"aab".to_vec()), Some(5));
    // Too many uses of one letter.
    assert_eq!(dict.slice_value(&b"aaab".to_vec()), None);
    // Not an acceptable word.
    assert_eq!(dict.slice_value(&b"ba".to_vec()), None);
    // Through a word value.
    assert_eq!(dict.word_value(&Word::new(b"ab".to_vec())), Some(4));
}

#[test]
fn parse_u64_accepts_exactly_decimal_tokens() {
    assert_eq!(parse::parse_u64(&b"123".to_vec()), Some(123));
    assert_eq!(parse::parse_u64(&b"+7".to_vec()), Some(7));
    assert_eq!(parse::parse_u64(&b"0".to_vec()), Some(0));
    assert_eq!(parse::parse_u64(&b"18446744073709551615".to_vec()), Some(u64::MAX));
    assert_eq!(parse::parse_u64(&b"18446744073709551616".to_vec()), None);
    assert_eq!(parse::parse_u64(&b"".to_vec()), None);
    assert_eq!(parse::parse_u64(&b"+".to_vec()), None);
    assert_eq!(parse::parse_u64(&b"12a".to_vec()), None);
    assert_eq!(parse::parse_u64(&b"-3".to_vec()), None);
}

#[test]
fn split_lines_matches_a_reader() {
    let lines = parse::split_lines(&b"a b\nc\r\n\nd".to_vec());
    let views: Vec<&[u8]> = lines.iter().map(|l| l.as_slice()).collect();
    assert_eq!(views, vec![b"a b".as_ref(), b"c".as_ref(), b"".as_ref(), b"d".as_ref()]);
    assert_eq!(parse::split_lines(&b"x\n".to_vec()).len(), 1);
    assert_eq!(parse::split_lines(&Vec::new()).len(), 0);
}

#[test]
fn split_tokens_skips_whitespace_runs() {
    let toks = parse::split_tokens(&b"  1 \t 23  456 ".to_vec());
    let views: Vec<&[u8]> = toks.iter().map(|t| t.as_slice()).collect();
    assert_eq!(views, vec![b"1".as_ref(), b"23".as_ref(), b"456".as_ref()]);
}

#[test]
fn gen_index_stays_below_its_bound() {
    let mut rng = RandomSource::new_seeded(43);
    for _ in 0..1000 {
        assert!(rng.gen_index(7) < 7);
    }
}

#[test]
fn gen_ratio_honours_certainties() {
    let mut rng = RandomSource::new_seeded(47);
    for _ in 0..100 {
        assert!(rng.gen_ratio(5, 5));
        assert!(!rng.gen_ratio(0, 5));
    }
}

#[test]
fn normal_sample_respects_its_bound() {
    let mut rng = RandomSource::new_seeded(53);
    for _ in 0..200 {
        let x = rng.normal_sample(100, 4);
        assert!(x <= 100 + 24);
    }
}

#[test]
fn words_search_returns_a_correctly_scored_word() {
    let dict = small_dictionary();
    let initial = vec![Word::new(b"ab".to_vec()), Word::new(b"zz".to_vec())];
    let mut rng = RandomSource::new_seeded(59);
    let solution = words::search(initial, &dict, 50, &mut rng);
    // The returned value is exactly the guarded evaluation of the word.
    let expected = dict.slice_value(&solution.word.as_slice().to_vec()).unwrap_or(0);
    assert_eq!(solution.value, expected);
    // At least the best starting word survives; the run may improve on it.
    assert!(solution.value == 4 || solution.value == 5);
}

#[test]
fn words_search_from_empty_population() {
    let dict = small_dictionary();
    let mut rng = RandomSource::new_seeded(61);
    let solution = words::search(Vec::new(), &dict, 20, &mut rng);
    let expected = dict.slice_value(&solution.word.as_slice().to_vec()).unwrap_or(0);
    assert_eq!(solution.value, expected);
}

#[test]
fn gen_u64_below_stays_below_its_bound() {
    let mut rng = RandomSource::new_seeded(67);
    for _ in 0..1000 {
        assert!(rng.gen_u64_below(11) < 11);
    }
}

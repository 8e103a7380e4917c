use bpe_core::error::BpeError;
use bpe_core::special::{byte_len, is_allowed, next_char_boundary};
use bpe_core::syntax::{chars_of, is_safe_pattern};
use bpe_core::tokenizer::CoreBPE;
use bpe_core::unstable::{insert_completion, is_all_space, tokens_eq};
use bpe_core::vocab::build_tables;

fn bytes_and_pairs() -> CoreBPE {
    let mut pairs: Vec<(Vec<u8>, u32)> = Vec::new();
    for b in 0u32..256 {
        pairs.push((vec![b as u8], b));
    }
    pairs.push((b"ab".to_vec(), 256));
    pairs.push((b"bc".to_vec(), 257));
    pairs.push((b"abc".to_vec(), 258));
    CoreBPE::new(pairs, vec![("<|end|>".to_string(), 1000)], r"\S+|\s+").unwrap()
}

#[test]
fn character_boundaries_are_found() {
    let text = "a\u{e9}\u{1f600}b";
    assert_eq!(byte_len(text), 8);
    assert_eq!(next_char_boundary(text, 0), 0);
    assert_eq!(next_char_boundary(text, 1), 1);
    assert_eq!(next_char_boundary(text, 2), 3);
    assert_eq!(next_char_boundary(text, 4), 7);
    assert_eq!(next_char_boundary(text, 8), 8);
}

#[test]
fn allowed_literals_are_compared_byte_by_byte() {
    let allowed = vec!["<a>", "<|end|>"];
    assert!(is_allowed(&allowed, b"<a>"));
    assert!(is_allowed(&allowed, b"<|end|>"));
    assert!(!is_allowed(&allowed, b"<b>"));
    assert!(!is_allowed(&allowed, b"<a"));
    assert!(!is_allowed(&vec![], b""));
}

#[test]
fn tables_are_built_from_lists_with_distinct_keys() {
    let pairs = vec![(b"b".to_vec(), 1), (b"a".to_vec(), 0), (b"ab".to_vec(), 2)];
    let (table, decoder) = build_tables(&pairs, true).unwrap();
    assert_eq!(table.len(), 3);
    assert_eq!(table.key_at(0), b"a");
    assert_eq!(table.get(b"ab"), Some(2));
    assert_eq!(decoder.get(&1), Some(&b"b".to_vec()));
    let twice = vec![(b"a".to_vec(), 0), (b"b".to_vec(), 0)];
    assert!(build_tables(&twice, true).is_none());
    let (_, decoder) = build_tables(&twice, false).unwrap();
    assert_eq!(decoder.get(&0), Some(&b"b".to_vec()));
    let same_key = vec![(b"a".to_vec(), 0), (b"a".to_vec(), 1)];
    assert!(build_tables(&same_key, false).is_none());
}

#[test]
fn completions_are_kept_once() {
    let mut completions: Vec<Vec<u32>> = Vec::new();
    insert_completion(&mut completions, vec![1, 2]);
    insert_completion(&mut completions, vec![3]);
    insert_completion(&mut completions, vec![1, 2]);
    insert_completion(&mut completions, vec![]);
    assert_eq!(completions, vec![vec![1, 2], vec![3], vec![]]);
    assert!(tokens_eq(&[1, 2], &[1, 2]));
    assert!(!tokens_eq(&[1, 2], &[1, 3]));
    assert!(!tokens_eq(&[1, 2], &[1]));
}

#[test]
fn space_newline_and_tab_are_space() {
    assert!(is_all_space(b" \n\t"));
    assert!(is_all_space(b""));
    assert!(!is_all_space(b" \r"));
    assert!(!is_all_space(b" a"));
}

#[test]
fn completions_are_collected_step_by_step() {
    let t = bytes_and_pairs();
    let mut completions: Vec<Vec<u32>> = Vec::new();
    t.collect_whole(b"a", &mut completions);
    assert_eq!(completions, vec![vec![97], vec![256], vec![258]]);
    let mut completions: Vec<Vec<u32>> = Vec::new();
    assert_eq!(t.collect_split(b"ab", 1, &mut completions), Ok(()));
    assert_eq!(completions, vec![vec![256], vec![258]]);
    let mut completions: Vec<Vec<u32>> = Vec::new();
    assert_eq!(t.collect_space(b"ab", &mut completions), Ok(()));
    assert_eq!(completions, Vec::<Vec<u32>>::new());
    assert_eq!(t.collect_space(b"ab ", &mut completions), Ok(()));
    assert_eq!(completions, vec![vec![256, 32]]);
    assert_eq!(t.collect_space(b"a\xc2\xa0", &mut completions), Ok(()));
    assert_eq!(completions, vec![vec![256, 32], vec![97, 194, 160]]);
    assert_eq!(t.completions_of(b"ab"), Ok(vec![vec![256], vec![258]]));
    assert_eq!(t.completions_of(b"\xff"), Ok(vec![vec![255]]));
}

#[test]
fn lookups_of_the_tokenizer() {
    let t = bytes_and_pairs();
    assert_eq!(t.special_rank(b"<|end|>"), Some(1000));
    assert_eq!(t.special_rank(b"abc"), None);
    assert_eq!(t.vocabulary_bytes(258), Some(&b"abc"[..]));
    assert_eq!(t.vocabulary_bytes(1000), None);
    assert_eq!(t.vocabulary().len(), 259);
    assert_eq!(t._decode_native(&[256, 99, 1000]), b"abc<|end|>".to_vec());
    assert_eq!(t.encode_bytes(b"abc \xe2\x82"), Ok(vec![258, 32, 226, 130]));
    assert_eq!(t.encode_single_token(b"abc"), Ok(258));
    assert_eq!(t.encode_single_token(b"\xff\xff"), Err(BpeError::TokenNotFound));
}

#[test]
fn patterns_that_the_engine_reads_plainly_are_taken() {
    for pattern in [
        "",
        r"\S+|\s+",
        r"(a)?(b)",
        r" ?(a|b)+",
        r"x ?(y)",
        r"\\0",
        r"a\\1",
        r"\\k",
        r"\s+(?!\S)|\s+",
        r"'s|'t|'re|'ve|'m|'ll|'d| ?\p{L}+| ?\p{N}+| ?[^\s\p{L}\p{N}]+|\s+(?!\S)|\s+",
        r"(?i:'s|'t|'re|'ve|'m|'ll|'d)|[^\r\n\p{L}\p{N}]?\p{L}+|\p{N}{1,3}| ?[^\s\p{L}\p{N}]+[\r\n]*|\s*[\r\n]+|\s+(?!\S)|\s+",
        r"[(?(]+",
        r"[\]\\1]",
        r"[^]a]b",
        r"[[:alpha:]]+",
        "(?x) a b # note (?(1)\n c",
        r"(?x:a) ?(b)",
        r"(?x)a(?-x) ?(b)",
        r"a{2,3}b{4}c{5,}",
        r"a{,5}",
        r"\x41\x{1F600}\u0041",
        r"\p{Greek}\pL",
        r"(?<name>a)(?P<other>b)(?>c)",
        r"(?<=a)b|(?<!c)d|e(?=f)",
        r"a(?#note)b(?#no\)te)c",
        r"a(?#\1)b",
        r"(?:a(?=.)|a(?=.))*b|\S+",
        r"\Ga",
        r"(?:(?:(?=a)b){4294967296}|c){4294967296}",
    ] {
        assert!(is_safe_pattern(pattern), "{}", pattern);
    }
}

#[test]
fn patterns_with_references_conditions_or_keep_outs_are_not_taken() {
    for pattern in [
        r"(a)\1",
        r"(?:(a\1?)b)+",
        r"(?<n>a)\k<n>",
        r"(?P<n>a)(?P=n)",
        r"(a)?(?(1)b|c)",
        r"(?(1)",
        r"(?(a)b",
        "(?x)(a)( ?(1)b|c)",
        "(?x)(?<n>a)( ?P=n)",
        "(a)((?#note)?(1)b|c)",
        r"(?<=\Ka)",
        r"a\Kb",
        r"[a\1]",
        r"(?:a{4294967296}){4294967296}{4294967296}",
        r"a(?#note",
        r"\",
    ] {
        assert!(!is_safe_pattern(pattern), "{}", pattern);
    }
}

#[test]
fn what_is_taken_agrees_with_the_engine() {
    for pattern in [
        r"\S+|\s+",
        r"(a)?(b)",
        r"x ?(y)",
        r"\\0",
        r"[(?(]+",
        r"(?x:a) ?(b)",
        r"a{2,3}b{4}c{5,}",
        r"\x41\x{1F600}\u0041",
        r"(?<name>a)(?P<other>b)(?>c)",
        r"(?<=a)b|(?<!c)d|e(?=f)",
        r"a(?#note)b(?#no\)te)c",
    ] {
        assert!(is_safe_pattern(pattern), "{}", pattern);
        assert!(fancy_regex::Regex::new(pattern).is_ok(), "{}", pattern);
        assert!(CoreBPE::new(vec![(b"a".to_vec(), 0)], vec![], pattern).is_ok(), "{}", pattern);
    }
}

#[test]
fn a_pattern_with_a_back_reference_is_refused() {
    let pairs = vec![(b"a".to_vec(), 0), (b"b".to_vec(), 1)];
    for pattern in [r"(?:(a\1?)b)+", r"(a)\1", r"(?P<n>a)(?P=n)", r"(a)?(?(1)b|c)", r"(?<=\Ka)"] {
        let r = CoreBPE::new(pairs.clone(), vec![], pattern);
        assert!(matches!(r, Err(BpeError::InvalidPattern)));
    }
    let t = CoreBPE::new(pairs.clone(), vec![], r"(a)?(b)").unwrap();
    assert_eq!(t.encode_ordinary("abab"), Ok(vec![0, 1, 0, 1]));
    let t = CoreBPE::new(pairs.clone(), vec![], r"\\0|a|b").unwrap();
    assert_eq!(t.encode_ordinary("ab"), Ok(vec![0, 1]));
}

#[test]
fn a_special_literal_with_a_backslash_before_a_digit_is_taken() {
    let t = bytes_and_pairs();
    let pairs = t.token_byte_values().into_iter().enumerate().map(|(i, k)| (k, i as u32)).collect();
    let t = CoreBPE::new(pairs, vec![(r"<\1>".to_string(), 1000)], r"\S+|\s+").unwrap();
    assert_eq!(t.encode(r"<\1><\1>", &vec![r"<\1>"]), Ok(vec![1000, 1000]));
}

#[test]
fn round_trip_of_byte_encoding() {
    let t = bytes_and_pairs();
    for bytes in [&b"abcd abc"[..], &b"abc \xe2\x82"[..], &b"ab\xff\xfe"[..], &b" \n\xff"[..]] {
        let tokens = t.encode_bytes(bytes).unwrap();
        assert_eq!(t.decode_bytes(tokens), bytes.to_vec());
    }
}

#[test]
fn characters_of_a_text() {
    assert_eq!(chars_of("a\u{e9}b"), vec!['a', '\u{e9}', 'b']);
    assert_eq!(chars_of(""), Vec::<char>::new());
}

#[test]
fn white_space_is_what_unicode_calls_so() {
    let t = bytes_and_pairs();
    let mut completions: Vec<Vec<u32>> = Vec::new();
    assert_eq!(t.collect_space(b"a\xe3\x80\x80", &mut completions), Ok(()));
    assert_eq!(completions, vec![vec![97, 227, 128, 128]]);
    assert_eq!(t.collect_space(b"a\x0b", &mut completions), Ok(()));
    assert_eq!(completions, vec![vec![97, 227, 128, 128], vec![97, 11]]);
    assert_eq!(t.collect_space(b"a\xe2\x80\x8b", &mut completions), Ok(()));
    assert_eq!(t.collect_space(b"a\x1c", &mut completions), Ok(()));
    assert_eq!(t.collect_space(b"ab", &mut completions), Ok(()));
    assert_eq!(completions.len(), 2);
}

use bpe_core::error::BpeError;
use bpe_core::tokenizer::CoreBPE;

fn toy_vocabulary() -> Vec<(Vec<u8>, u32)> {
    let mut pairs: Vec<(Vec<u8>, u32)> = Vec::new();
    for b in 0u32..256 {
        pairs.push((vec![b as u8], b));
    }
    pairs.push((b"ab".to_vec(), 256));
    pairs.push((b"bc".to_vec(), 257));
    pairs.push((b"abc".to_vec(), 258));
    pairs
}

fn toy() -> CoreBPE {
    CoreBPE::new(toy_vocabulary(), vec![("<|end|>".to_string(), 1000)], r"\S+|\s+").unwrap()
}

#[test]
fn encode_ordinary_of_a_single_token() {
    assert_eq!(toy().encode_ordinary("abc"), Ok(vec![258]));
}

#[test]
fn encode_ordinary_merges_the_lowest_rank_first() {
    assert_eq!(toy().encode_ordinary("abcd"), Ok(vec![258, 100]));
}

#[test]
fn encode_ordinary_of_empty_text_is_empty() {
    assert_eq!(toy().encode_ordinary(""), Ok(vec![]));
}

#[test]
fn decode_bytes_of_ordinary_and_special_tokens() {
    assert_eq!(toy().decode_bytes(vec![258]), b"abc".to_vec());
    assert_eq!(toy().decode_bytes(vec![258, 1000]), b"abc<|end|>".to_vec());
}

#[test]
fn encode_single_token_finds_specials_too() {
    assert_eq!(toy().encode_single_token(b"<|end|>"), Ok(1000));
    assert_eq!(toy().encode_single_token(b"zz"), Err(BpeError::TokenNotFound));
}

#[test]
fn encode_with_an_allowed_special() {
    let t = toy();
    let mut expected = t.encode_ordinary("hi ").unwrap();
    expected.push(1000);
    expected.extend(t.encode_ordinary(" bye").unwrap());
    assert_eq!(t.encode("hi <|end|> bye", &vec!["<|end|>"]), Ok(expected));
}

#[test]
fn encode_without_allowed_specials_takes_the_literal_as_text() {
    let t = toy();
    let tokens = t.encode("hi <|end|> bye", &vec![]).unwrap();
    assert_eq!(tokens, t.encode_ordinary("hi <|end|> bye").unwrap());
    assert!(!tokens.contains(&1000));
    assert_eq!(t.decode_bytes(tokens), b"hi <|end|> bye".to_vec());
}

#[test]
fn allowed_special_at_the_start_comes_first() {
    let t = toy();
    let tokens = t.encode("<|end|>abc", &vec!["<|end|>"]).unwrap();
    assert_eq!(tokens, vec![1000, 258]);
}

#[test]
fn encode_bytes_of_text_is_ordinary_encoding() {
    let t = toy();
    assert_eq!(t.encode_bytes(b"abcd"), Ok(vec![258, 100]));
}

#[test]
fn encode_bytes_joins_the_invalid_tail_to_the_last_piece() {
    let t = toy();
    assert_eq!(t.encode_bytes(b"ab\xff"), Ok(vec![256, 255]));
}

#[test]
fn encode_bytes_without_a_valid_prefix() {
    let t = toy();
    assert_eq!(t.encode_bytes(b"\xff\xfe"), Ok(vec![]));
}

fn sorted(mut v: Vec<Vec<u32>>) -> Vec<Vec<u32>> {
    v.sort();
    v
}

#[test]
fn round_trip_of_ordinary_encoding() {
    let t = toy();
    for text in ["", "abc", "abcd abc\n\tzz  ab", "h\u{e9}llo w\u{f6}rld \u{1f600}", "<|end|>"] {
        let tokens = t.encode_ordinary(text).unwrap();
        assert_eq!(t.decode_bytes(tokens), text.as_bytes().to_vec());
    }
}

#[test]
fn round_trip_of_encoding_with_specials() {
    let t = toy();
    let text = "ab<|end|>abc <|end|><|end|> bye";
    for allowed in [vec![], vec!["<|end|>"]] {
        let tokens = t.encode(text, &allowed).unwrap();
        assert_eq!(t.decode_bytes(tokens), text.as_bytes().to_vec());
    }
    assert_eq!(
        t.encode(text, &vec!["<|end|>"]).unwrap(),
        vec![256, 1000, 258, 32, 1000, 1000, 32, 98, 121, 101]
    );
}

#[test]
fn a_piece_of_one_byte_is_looked_up() {
    let t = toy();
    assert_eq!(t.encode_ordinary("a"), Ok(vec![97]));
    assert_eq!(t.encode_ordinary("a b"), Ok(vec![97, 32, 98]));
    assert_eq!(t.encode_single_piece(b"a"), vec![97]);
}

#[test]
fn encode_single_piece_leaves_specials_aside() {
    let t = toy();
    assert_eq!(t.encode_single_piece(b"abc"), vec![258]);
    assert_eq!(t.encode_single_piece(b"abcd"), vec![258, 100]);
    assert_eq!(
        t.encode_single_piece(b"<|end|>"),
        vec![60, 124, 101, 110, 100, 124, 62]
    );
    assert_eq!(t.encode_piece(b""), None);
}

#[test]
fn decode_single_token_bytes_of_both_kinds() {
    let t = toy();
    assert_eq!(t.decode_single_token_bytes(258), Ok(b"abc".to_vec()));
    assert_eq!(t.decode_single_token_bytes(1000), Ok(b"<|end|>".to_vec()));
    assert_eq!(t.decode_single_token_bytes(999), Err(BpeError::TokenNotFound));
}

#[test]
fn token_byte_values_are_strictly_increasing() {
    let values = toy().token_byte_values();
    assert_eq!(values.len(), 259);
    for pair in values.windows(2) {
        assert!(pair[0] < pair[1]);
    }
    assert_eq!(values[97], b"a".to_vec());
    assert_eq!(values[98], b"ab".to_vec());
    assert_eq!(values[99], b"abc".to_vec());
    assert_eq!(values[100], b"b".to_vec());
}

#[test]
fn a_pattern_that_does_not_compile_is_refused() {
    let r = CoreBPE::new(toy_vocabulary(), vec![], "(");
    assert!(matches!(r, Err(BpeError::InvalidPattern)));
}

#[test]
fn a_rank_used_twice_is_refused() {
    let mut pairs = toy_vocabulary();
    pairs.push((b"zz".to_vec(), 256));
    let r = CoreBPE::new(pairs, vec![], r"\S+|\s+");
    assert!(matches!(r, Err(BpeError::InvalidVocabulary)));
}

#[test]
fn a_key_listed_twice_is_refused() {
    let mut pairs = toy_vocabulary();
    pairs.push((b"ab".to_vec(), 900));
    let r = CoreBPE::new(pairs, vec![], r"\S+|\s+");
    assert!(matches!(r, Err(BpeError::InvalidVocabulary)));
    let specials = vec![("<a>".to_string(), 1000), ("<a>".to_string(), 1001)];
    let r = CoreBPE::new(toy_vocabulary(), specials, r"\S+|\s+");
    assert!(matches!(r, Err(BpeError::InvalidVocabulary)));
}

#[test]
fn without_special_tokens_nothing_is_special() {
    let t = CoreBPE::new(toy_vocabulary(), vec![], r"\S+|\s+").unwrap();
    assert_eq!(t.encode("abc <|end|>", &vec!["<|end|>"]), t.encode_ordinary("abc <|end|>"));
    assert_eq!(t.encode("", &vec![]), Ok(vec![]));
}

#[test]
fn a_byte_outside_the_vocabulary_is_not_found() {
    let t = CoreBPE::new(vec![(b"a".to_vec(), 0)], vec![], r"\S+|\s+").unwrap();
    assert_eq!(t.encode_ordinary("aaa"), Ok(vec![0, 0, 0]));
    assert_eq!(t.encode_ordinary("b"), Err(BpeError::TokenNotFound));
    assert_eq!(t.encode_ordinary("a"), Ok(vec![0]));
    assert_eq!(t.encode_ordinary("a b"), Err(BpeError::TokenNotFound));
    assert_eq!(t.encode_bytes(b"a\xff"), Err(BpeError::TokenNotFound));
    assert!(!t.covers(b"ab"));
    assert!(t.covers(b"aa"));
}

#[test]
fn special_literals_are_escaped_in_the_pattern() {
    let specials = vec![("a.c".to_string(), 1000), ("(x)+".to_string(), 1001)];
    let t = CoreBPE::new(toy_vocabulary(), specials, r"\S+|\s+").unwrap();
    let allowed = vec!["a.c", "(x)+"];
    assert_eq!(t.encode("abc", &allowed), Ok(vec![258]));
    assert_eq!(t.encode("a.c", &allowed), Ok(vec![1000]));
    assert_eq!(t.encode("(x)+(x)+", &allowed), Ok(vec![1001, 1001]));
    assert_eq!(t.encode("xx", &allowed), Ok(vec![120, 120]));
}

#[test]
fn a_special_that_is_not_allowed_is_passed_over() {
    let specials = vec![("<a>".to_string(), 1000), ("<b>".to_string(), 1001)];
    let t = CoreBPE::new(toy_vocabulary(), specials, r"\S+|\s+").unwrap();
    assert_eq!(
        t.encode("<a><b><a>", &vec!["<b>"]),
        Ok(vec![60, 97, 62, 1001, 60, 97, 62])
    );
    assert_eq!(t.next_special("<a><b><a>", &vec!["<b>"], 0), Ok(Some((3, 6))));
    assert_eq!(t.next_special("<a><b><a>", &vec!["<b>"], 6), Ok(None));
    assert_eq!(t.search_special("<a><b><a>", 3), Ok(Some((3, 6))));
    assert_eq!(t.search_special("<a><b><a>", 0), Ok(Some((0, 3))));
}

#[test]
fn specials_after_characters_of_several_bytes() {
    let specials = vec![("\u{e9}\u{e9}".to_string(), 1000), ("\u{e9}".to_string(), 1001)];
    let t = CoreBPE::new(toy_vocabulary(), specials, r"\S+|\s+").unwrap();
    assert_eq!(t.encode("\u{e9}\u{e9}", &vec!["\u{e9}"]), Ok(vec![195, 169, 1001]));
    assert_eq!(t.encode("\u{e9}\u{e9}", &vec!["\u{e9}\u{e9}"]), Ok(vec![1000]));
}

#[test]
fn the_last_piece_and_its_token_count() {
    let t = toy();
    assert_eq!(t._encode_native("abcd xy", &vec![]), Ok((vec![258, 100, 32, 120, 121], 2)));
    assert_eq!(t._encode_native("abc<|end|>", &vec!["<|end|>"]), Ok((vec![258, 1000], 0)));
    assert_eq!(t._encode_native("", &vec![]), Ok((vec![], 0)));
    assert_eq!(t._encode_ordinary_native("abcd abc"), Ok((vec![258, 100, 32, 258], 1)));
    assert_eq!(t.encode_pieces(b"abcd", &vec![(0, 2), (2, 4)]), Ok((vec![256, 99, 100], 2)));
    assert_eq!(t.encode_pieces(b"abcd", &vec![(0, 5)]), Err(BpeError::MatchFailed));
    assert_eq!(t.encode_pieces(b"abcd", &vec![(3, 2)]), Err(BpeError::MatchFailed));
    assert_eq!(t.encode_pieces(b"abcd", &vec![(1, 1)]), Err(BpeError::TokenNotFound));
}

#[test]
fn white_space_tokens_before_the_last_piece_are_unstable_too() {
    let t = toy();
    assert_eq!(t._increase_last_piece_token_len(vec![97, 32, 10, 9], 1), (vec![97, 32, 10, 9], 3));
    assert_eq!(t._increase_last_piece_token_len(vec![32, 10, 9], 1), (vec![32, 10, 9], 3));
    assert_eq!(t._increase_last_piece_token_len(vec![32, 10, 97], 1), (vec![32, 10, 97], 1));
    assert_eq!(t._increase_last_piece_token_len(vec![32, 1000, 9], 1), (vec![32, 1000, 9], 1));
    assert_eq!(t._increase_last_piece_token_len(vec![32, 10], 0), (vec![32, 10], 0));
    assert!(t.token_is_all_space(32));
    assert!(!t.token_is_all_space(13));
    assert!(!t.token_is_all_space(1000));
}

#[test]
fn unstable_tokens_of_a_piece_that_may_grow() {
    let t = toy();
    let (stable, completions) = t.encode_with_unstable("ab", &vec![]).unwrap();
    assert_eq!(stable, vec![]);
    assert_eq!(sorted(completions), vec![vec![256], vec![258]]);
    let (stable, completions) = t.encode_with_unstable("hi ", &vec![]).unwrap();
    assert_eq!(stable, vec![104, 105]);
    assert_eq!(sorted(completions), vec![vec![32]]);
    let (stable, completions) = t.encode_with_unstable("a \n", &vec![]).unwrap();
    assert_eq!(stable, vec![97]);
    assert_eq!(sorted(completions), vec![vec![32, 10]]);
    let (stable, completions) = t.encode_with_unstable("zz xa", &vec![]).unwrap();
    assert_eq!(stable, vec![122, 122, 32]);
    assert_eq!(sorted(completions), vec![vec![120, 97], vec![120, 256], vec![120, 258]]);
}

#[test]
fn after_a_special_token_nothing_is_unstable() {
    let t = toy();
    assert_eq!(
        t.encode_with_unstable("hi<|end|>", &vec!["<|end|>"]),
        Ok((vec![104, 105, 1000], vec![]))
    );
    assert_eq!(t.encode_with_unstable("", &vec![]), Ok((vec![], vec![])));
}

#[test]
fn white_space_at_the_end_may_be_split_off() {
    let mut pairs = toy_vocabulary();
    pairs.push((b"a ".to_vec(), 300));
    let t = CoreBPE::new(pairs, vec![], r".+").unwrap();
    let (stable, completions) = t.encode_with_unstable("a ", &vec![]).unwrap();
    assert_eq!(stable, vec![]);
    assert_eq!(sorted(completions), vec![vec![97, 32], vec![300]]);
}

#[test]
fn completions_cover_the_unstable_bytes_and_no_more() {
    let t = toy();
    assert_eq!(t.covered_prefix(vec![258, 100, 97], 3), vec![258]);
    assert_eq!(t.covered_prefix(vec![258, 100, 97], 4), vec![258, 100]);
    assert_eq!(t.covered_prefix(vec![97, 98], 9), vec![97, 98]);
    assert_eq!(t.covered_prefix(vec![], 2), vec![]);
    assert_eq!(t.reencode(b"abcd"), Ok(vec![258, 100]));
    assert_eq!(t.reencode(b"ab cd"), Ok(vec![256, 32, 99, 100]));
    assert_eq!(t.reencode(b"ab\xff"), Ok(vec![256, 255]));
    assert_eq!(t.merged(b"a"), Ok(vec![97]));
    assert_eq!(t.merged(b"abc"), Ok(vec![258]));
    assert_eq!(t.merged(b""), Err(BpeError::TokenNotFound));
}

#[test]
fn a_search_that_the_engine_gives_up_is_reported() {
    let t = CoreBPE::new(toy_vocabulary(), vec![], r"(?:a(?=.)|a(?=.))*b|\S+").unwrap();
    let text = "aaaaaaaaaaaaaaaaaaaaaaaaaaaaaaaaaaaaaaaa";
    assert_eq!(t.encode_ordinary(text), Err(BpeError::MatchFailed));
    assert_eq!(t.encode(text, &vec![]), Err(BpeError::MatchFailed));
}

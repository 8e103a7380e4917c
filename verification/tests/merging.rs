use bpe_core::bytes::{bytes_eq, bytes_lt, bytes_start_with};
use bpe_core::merge::{_byte_pair_merge, byte_pair_encode, byte_pair_split};
use bpe_core::table::RankTable;

fn table(extra: &[(&[u8], u32)]) -> RankTable {
    let mut t = RankTable::new();
    for b in 0u32..256 {
        assert!(t.insert(vec![b as u8], b));
    }
    for (key, rank) in extra {
        assert!(t.insert(key.to_vec(), *rank));
    }
    t
}

fn toy_table() -> RankTable {
    table(&[(b"ab", 256), (b"bc", 257), (b"abc", 258)])
}

#[test]
fn merge_gives_the_boundaries_of_the_tokens() {
    assert_eq!(_byte_pair_merge(&toy_table(), b"abcd"), vec![0, 3, 4]);
    assert_eq!(_byte_pair_merge(&toy_table(), b"xyz"), vec![0, 1, 2, 3]);
    assert_eq!(_byte_pair_merge(&toy_table(), b"ab"), vec![0, 2]);
}

#[test]
fn byte_pair_encode_of_the_toy_pieces() {
    assert_eq!(byte_pair_encode(b"abcd", &toy_table()), vec![258, 100]);
    assert_eq!(byte_pair_encode(b"abc", &toy_table()), vec![258]);
    assert_eq!(byte_pair_encode(b"bcd", &toy_table()), vec![257, 100]);
    assert_eq!(byte_pair_encode(b"xy", &toy_table()), vec![120, 121]);
}

#[test]
fn byte_pair_split_gives_the_parts() {
    let parts = byte_pair_split(b"abcd", &toy_table());
    assert_eq!(parts, vec![&b"abc"[..], &b"d"[..]]);
    let parts = byte_pair_split(b"zabcab", &toy_table());
    assert_eq!(parts, vec![&b"z"[..], &b"abc"[..], &b"ab"[..]]);
}

#[test]
fn split_parts_put_together_are_the_piece() {
    let piece = b"abcabcbcab zz abcd";
    let parts = byte_pair_split(piece, &toy_table());
    assert_eq!(parts.concat(), piece.to_vec());
}

#[test]
fn encode_ranks_are_those_of_the_split_parts() {
    let t = toy_table();
    let piece = b"ababcbcx";
    let tokens = byte_pair_encode(piece, &t);
    let parts = byte_pair_split(piece, &t);
    assert_eq!(tokens.len(), parts.len());
    for (token, part) in tokens.iter().zip(parts.iter()) {
        assert_eq!(t.get(part), Some(*token));
    }
}

#[test]
fn merging_is_a_function_of_its_arguments() {
    let t = toy_table();
    assert_eq!(byte_pair_encode(b"abcbcab", &t), byte_pair_encode(b"abcbcab", &t));
    assert_eq!(_byte_pair_merge(&t, b"abcbcab"), _byte_pair_merge(&toy_table(), b"abcbcab"));
}

#[test]
fn of_two_pairs_with_one_rank_the_left_one_is_merged() {
    let t = table(&[(b"ab", 300), (b"bc", 300)]);
    assert_eq!(byte_pair_split(b"abc", &t), vec![&b"ab"[..], &b"c"[..]]);
}

#[test]
fn the_lower_rank_is_merged_first() {
    let t = table(&[(b"ab", 300), (b"bc", 299)]);
    assert_eq!(byte_pair_split(b"abc", &t), vec![&b"a"[..], &b"bc"[..]]);
    assert_eq!(byte_pair_encode(b"abc", &t), vec![97, 299]);
}

#[test]
fn the_highest_rank_can_still_be_merged() {
    let t = table(&[(b"ab", u32::MAX)]);
    assert_eq!(byte_pair_encode(b"ab", &t), vec![u32::MAX]);
}

#[test]
fn merges_reach_three_parts_ahead() {
    let t = table(&[(b"ab", 256), (b"cd", 257), (b"abcd", 258)]);
    assert_eq!(byte_pair_encode(b"abcd", &t), vec![258]);
    assert_eq!(byte_pair_encode(b"abcde", &t), vec![258, 101]);
}

#[test]
fn table_lookup_and_order() {
    let mut t = RankTable::new();
    assert!(t.insert(b"b".to_vec(), 2));
    assert!(t.insert(b"a".to_vec(), 1));
    assert!(t.insert(b"ab".to_vec(), 3));
    assert!(!t.insert(b"a".to_vec(), 9));
    assert_eq!(t.len(), 3);
    assert_eq!(t.key_at(0), b"a");
    assert_eq!(t.key_at(1), b"ab");
    assert_eq!(t.key_at(2), b"b");
    assert_eq!(t.rank_at(1), 3);
    assert_eq!(t.get(b"a"), Some(1));
    assert_eq!(t.get(b"c"), None);
    assert!(t.contains(b"ab"));
    assert_eq!(t.lower_bound(b"aa"), 1);
    assert_eq!(t.lower_bound(b"ab"), 1);
    assert_eq!(t.lower_bound(b"c"), 3);
    assert_eq!(t.lower_bound(b""), 0);
}

#[test]
fn byte_strings_are_ordered_lexicographically() {
    assert!(bytes_lt(b"", b"a"));
    assert!(bytes_lt(b"a", b"ab"));
    assert!(bytes_lt(b"ab", b"b"));
    assert!(bytes_lt(b"a\x00", b"a\x01"));
    assert!(!bytes_lt(b"b", b"ab"));
    assert!(!bytes_lt(b"ab", b"ab"));
    assert!(!bytes_lt(b"", b""));
    assert!(bytes_eq(b"ab", b"ab"));
    assert!(!bytes_eq(b"ab", b"abc"));
    assert!(bytes_start_with(b"abc", b"ab"));
    assert!(bytes_start_with(b"abc", b""));
    assert!(!bytes_start_with(b"ab", b"abc"));
    assert!(!bytes_start_with(b"abc", b"bc"));
}

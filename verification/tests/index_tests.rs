use chemfst::keys::key_lt;
use chemfst::lines::split_lines;
use chemfst::sorting::{dedup_keys, key_eq, sort_keys};
use chemfst::text::contains_bytes;
use chemfst::loader::is_framed;
use chemfst::{build_fst_index, build_fst_set, load_fst_set, prefix_search, preload_fst_set, LoadError};
use fst::Streamer;

// All keys of the store in `bytes`, read with `fst` alone.
fn stored_keys(bytes: Vec<u8>) -> Vec<Vec<u8>> {
    let set = fst::Set::new(bytes).unwrap();
    let mut stream = set.stream();
    let mut keys = Vec::new();
    while let Some(key) = stream.next() {
        keys.push(key.to_vec());
    }
    keys
}

#[test]
fn split_lines_strips_terminators() {
    let lines = split_lines(b"alpha\nbeta\r\ngamma");
    assert_eq!(lines, vec![&b"alpha"[..], &b"beta"[..], &b"gamma"[..]]);
}

#[test]
fn split_lines_keeps_empty_lines() {
    let lines = split_lines(b"a\n\nb\n");
    assert_eq!(lines, vec![&b"a"[..], &b""[..], &b"b"[..]]);
}

#[test]
fn split_lines_of_empty_text() {
    assert_eq!(split_lines(b"").len(), 0);
    assert_eq!(split_lines(b"\n"), vec![&b""[..]]);
}

#[test]
fn split_lines_keeps_lone_carriage_returns() {
    let lines = split_lines(b"a\rb\nc\r");
    assert_eq!(lines, vec![&b"a\rb"[..], &b"c\r"[..]]);
    let lines = split_lines(b"a\r\r\n");
    assert_eq!(lines, vec![&b"a\r"[..]]);
}

#[test]
fn key_lt_is_lexicographic_on_bytes() {
    assert!(key_lt(b"", b"a"));
    assert!(!key_lt(b"a", b""));
    assert!(!key_lt(b"", b""));
    assert!(key_lt(b"ab", b"b"));
    assert!(key_lt(b"ab", b"abc"));
    assert!(!key_lt(b"abc", b"ab"));
    assert!(!key_lt(b"abc", b"abc"));
    assert!(key_lt(b"Zinc", b"acetone"));
    assert!(key_lt(b"a\x7f", b"a\x80"));
}

#[test]
fn key_eq_compares_bytes() {
    assert!(key_eq(b"", b""));
    assert!(key_eq(b"abc", b"abc"));
    assert!(!key_eq(b"abc", b"abd"));
    assert!(!key_eq(b"abc", b"ab"));
}

#[test]
fn sort_keys_sorts_and_keeps_repeats() {
    let keys: Vec<&[u8]> = vec![b"pear", b"apple", b"fig", b"apple", b"", b"figs"];
    let sorted = sort_keys(&keys);
    let expected: Vec<&[u8]> = vec![b"", b"apple", b"apple", b"fig", b"figs", b"pear"];
    assert_eq!(sorted, expected);
    assert_eq!(sort_keys(&[]).len(), 0);
}

#[test]
fn dedup_keys_drops_adjacent_repeats() {
    let keys: Vec<&[u8]> = vec![b"a", b"a", b"b", b"a", b"a", b"a", b"c"];
    let unique = dedup_keys(&keys);
    let expected: Vec<&[u8]> = vec![b"a", b"b", b"a", b"c"];
    assert_eq!(unique, expected);
    assert_eq!(dedup_keys(&[]).len(), 0);
}

#[test]
fn contains_bytes_finds_runs() {
    assert!(contains_bytes(b"benzene", b"enz"));
    assert!(contains_bytes(b"benzene", b"benzene"));
    assert!(contains_bytes(b"benzene", b"ne"));
    assert!(contains_bytes(b"benzene", b""));
    assert!(contains_bytes(b"", b""));
    assert!(!contains_bytes(b"benzene", b"enx"));
    assert!(!contains_bytes(b"benzene", b"benzenes"));
    assert!(!contains_bytes(b"", b"a"));
    assert!(contains_bytes(b"aab", b"ab"));
}

#[test]
fn build_stores_names_sorted_and_once() {
    let text = b"methanol\nacetone\nbenzene\nacetone\nZinc\nmethanol\nacetaminophen\n";
    let bytes = build_fst_set(text).unwrap();
    let expected: Vec<Vec<u8>> = vec![
        b"Zinc".to_vec(),
        b"acetaminophen".to_vec(),
        b"acetone".to_vec(),
        b"benzene".to_vec(),
        b"methanol".to_vec(),
    ];
    assert_eq!(stored_keys(bytes), expected);
}

#[test]
fn build_passes_over_lines_that_are_not_text() {
    let text = b"acetone\n\xff\xfe\nbenz\xc3\nmethanol\n";
    let bytes = build_fst_set(text).unwrap();
    assert_eq!(stored_keys(bytes), vec![b"acetone".to_vec(), b"methanol".to_vec()]);
}

#[test]
fn build_takes_last_line_without_terminator() {
    let bytes = build_fst_set(b"b\r\na").unwrap();
    assert_eq!(stored_keys(bytes), vec![b"a".to_vec(), b"b".to_vec()]);
}

#[test]
fn build_of_empty_text_gives_empty_store() {
    let bytes = build_fst_set(b"").unwrap();
    assert_eq!(stored_keys(bytes.clone()).len(), 0);
    let set = load_fst_set(bytes).unwrap();
    assert_eq!(prefix_search(&set, "", 10).len(), 0);
    assert_eq!(preload_fst_set(&set).unwrap(), 0);
}

#[test]
fn build_stores_the_empty_name() {
    let bytes = build_fst_set(b"b\n\na\n").unwrap();
    assert_eq!(stored_keys(bytes.clone()), vec![b"".to_vec(), b"a".to_vec(), b"b".to_vec()]);
    let set = load_fst_set(bytes).unwrap();
    assert_eq!(prefix_search(&set, "", 10), vec!["".to_string(), "a".to_string(), "b".to_string()]);
}

#[test]
fn build_is_the_same_for_any_order_of_lines() {
    let first = build_fst_set(b"c\nb\na\nb\n").unwrap();
    let second = build_fst_set(b"a\nb\nc\n").unwrap();
    assert_eq!(first, second);
}

#[test]
fn load_refuses_bytes_that_are_no_store() {
    assert!(matches!(load_fst_set(vec![1, 2, 3]), Err(LoadError::CorruptStore)));
    assert!(matches!(load_fst_set(Vec::new()), Err(LoadError::CorruptStore)));
    assert!(matches!(load_fst_set(vec![0; 64]), Err(LoadError::CorruptStore)));
}

#[test]
fn every_name_is_found_again() {
    let names = ["acetone", "acetaminophen", "benzene", "benzaldehyde", "chloroform", "methanol"];
    let text = names.join("\n");
    let set = load_fst_set(build_fst_set(text.as_bytes()).unwrap()).unwrap();
    for name in names {
        assert_eq!(prefix_search(&set, name, 1), vec![name.to_string()]);
    }
    assert_eq!(prefix_search(&set, "ethanol", 10).len(), 0);
}

#[test]
fn every_built_store_has_the_frame_of_a_store() {
    for text in ["", "\n", "a\n", "b\na\nb\n", "acetone\nacetaminophen\nbenzene\n", "\u{10FFFF}\n"] {
        let bytes = build_fst_set(text.as_bytes()).unwrap();
        assert!(is_framed(&bytes));
        assert!(load_fst_set(bytes).is_ok());
    }
    let mut text = String::new();
    for number in 0..2000 {
        text.push_str(&format!("compound {}\n", number * 7919 % 2003));
    }
    let bytes = build_fst_set(text.as_bytes()).unwrap();
    assert!(is_framed(&bytes));
    assert!(load_fst_set(bytes).is_ok());
}

#[test]
fn the_store_of_one_empty_name_is_bare() {
    let bytes = build_fst_set(b"\n").unwrap();
    assert_eq!(bytes.len(), 36);
    assert_eq!(stored_keys(bytes), vec![b"".to_vec()]);
}

#[test]
fn load_refuses_a_store_that_was_cut_off() {
    let bytes = build_fst_set(b"acetone\nacetaminophen\nbenzene\nbenzaldehyde\n").unwrap();
    for cut in 1..bytes.len() {
        let short = bytes[..bytes.len() - cut].to_vec();
        assert!(!is_framed(&short));
        assert_eq!(load_fst_set(short).unwrap_err(), LoadError::CorruptStore);
    }
    let mut long = bytes.clone();
    long.push(0);
    assert_eq!(load_fst_set(long).unwrap_err(), LoadError::CorruptStore);
    assert!(load_fst_set(bytes).is_ok());
}

#[test]
fn load_refuses_an_unknown_version() {
    let bytes = build_fst_set(b"acetone\nbenzene\n").unwrap();
    assert_eq!(bytes[0], 3);
    for version in [0u8, 4, 255] {
        let mut other = bytes.clone();
        other[0] = version;
        assert_eq!(load_fst_set(other).unwrap_err(), LoadError::CorruptStore);
    }
    let mut other = bytes.clone();
    other[7] = 1;
    assert_eq!(load_fst_set(other).unwrap_err(), LoadError::CorruptStore);
}

#[test]
fn load_refuses_a_root_address_that_does_not_fit() {
    let bytes = build_fst_set(b"acetone\nbenzene\n").unwrap();
    let at = bytes.len() - 12;
    let mut other = bytes.clone();
    other[at] = other[at].wrapping_add(1);
    assert_eq!(load_fst_set(other).unwrap_err(), LoadError::CorruptStore);
    let mut other = bytes.clone();
    for byte in &mut other[at..at + 8] {
        *byte = 0;
    }
    assert_eq!(load_fst_set(other).unwrap_err(), LoadError::CorruptStore);
}

#[test]
fn build_counts_names_and_keys() {
    let built = build_fst_index(b"b\na\nb\n\xff\nc\na\n").unwrap();
    assert_eq!(built.names, 5);
    assert_eq!(built.keys, 3);
    assert_eq!(stored_keys(built.store), vec![b"a".to_vec(), b"b".to_vec(), b"c".to_vec()]);
    let built = build_fst_index(b"").unwrap();
    assert_eq!((built.names, built.keys), (0, 0));
}

use bmscan::boyermoore::{find_full, BadCharMapByteRev, Byte, ByteSearchable};

fn scan(pattern: &str, text: &str) -> Vec<usize> {
    let m = Byte::from(pattern.to_string()).unwrap();
    m.find_full_all(text.to_string())
}

fn naive(pattern: &[u8], text: &[u8]) -> Vec<usize> {
    let mut r = Vec::new();
    if pattern.is_empty() || pattern.len() > text.len() {
        return r;
    }
    let mut k = text.len() - pattern.len() + 1;
    while k > 0 {
        k -= 1;
        if &text[k..k + pattern.len()] == pattern {
            r.push(k);
        }
    }
    r
}

#[test]
fn scenario_two_byte_pattern_twice() {
    assert_eq!(scan("ab", "abab"), vec![2, 0]);
}

#[test]
fn scenario_overlapping_occurrences() {
    assert_eq!(scan("aaa", "aaaa"), vec![1, 0]);
}

#[test]
fn scenario_absent_pattern() {
    assert_eq!(scan("xyz", "abc"), Vec::<usize>::new());
}

#[test]
fn scenario_single_byte_pattern() {
    assert_eq!(scan("a", "banana"), vec![5, 3, 1]);
}

#[test]
fn every_occurrence_is_reported() {
    let texts = ["abracadabra", "aaaaaaa", "abababab", "xabcabcabx", "mississippi", "the cat sat on the mat"];
    let patterns = ["a", "ab", "abra", "aa", "abc", "ss", "issi", "at", "the", "b", "zz"];
    for t in texts.iter() {
        for p in patterns.iter() {
            assert_eq!(scan(p, t), naive(p.as_bytes(), t.as_bytes()), "pattern {} text {}", p, t);
        }
    }
}

#[test]
fn no_occurrence_gives_empty_set() {
    assert!(scan("q", "abcdef").is_empty());
    assert!(scan("abd", "abcabcabc").is_empty());
}

#[test]
fn match_set_strictly_decreasing() {
    let r = scan("ana", "bananarama banana");
    assert_eq!(r, vec![14, 12, 3, 1]);
    for w in r.windows(2) {
        assert!(w[0] > w[1]);
    }
}

#[test]
fn limit_keeps_rightmost_matches() {
    let p = "a".to_string();
    let t = "banana".to_string();
    let table = BadCharMapByteRev::create_bad_char_map(&p).unwrap();
    assert_eq!(find_full(&t, &p, &table, 0), vec![5, 3, 1]);
    assert_eq!(find_full(&t, &p, &table, 1), vec![5]);
    assert_eq!(find_full(&t, &p, &table, 2), vec![5, 3]);
    assert_eq!(find_full(&t, &p, &table, 3), vec![5, 3, 1]);
    assert_eq!(find_full(&t, &p, &table, 7), vec![5, 3, 1]);
}

#[test]
fn scanning_twice_gives_same_set() {
    let m = Byte::from("ab".to_string()).unwrap();
    let t = "cabbabab".to_string();
    let first = m.find_full_all(&t);
    let second = m.find_full_all(&t);
    assert_eq!(first, second);
    assert_eq!(first, vec![6, 4, 1]);
}

#[test]
fn empty_pattern_gives_no_matcher() {
    assert!(Byte::from(String::new()).is_none());
    assert!(Byte::from(Vec::<u8>::new()).is_none());
    assert!(BadCharMapByteRev::create_bad_char_map(String::new()).is_none());
}

#[test]
fn pattern_longer_than_text() {
    assert!(scan("abcd", "abc").is_empty());
}

#[test]
fn empty_text() {
    assert!(scan("a", "").is_empty());
}

#[test]
fn pattern_as_long_as_text() {
    assert_eq!(scan("abc", "abc"), vec![0]);
    assert!(scan("abc", "abd").is_empty());
}

#[test]
fn raw_bytes_and_strings_scan_alike() {
    let m = Byte::from(vec![0u8, 255u8]).unwrap();
    let text: Vec<u8> = vec![0, 255, 0, 255, 7, 0, 255];
    assert_eq!(m.find_full_all(&text), vec![5, 2, 0]);
    let m2 = Byte::from("na".to_string()).unwrap();
    assert_eq!(m2.find_full_all("banana".as_bytes().to_vec()), vec![4, 2]);
}

#[test]
fn shift_table_entries() {
    let table = BadCharMapByteRev::create_bad_char_map("abcab".to_string()).unwrap();
    assert_eq!(table.entry(b'a'), 3);
    assert_eq!(table.entry(b'b'), 1);
    assert_eq!(table.entry(b'c'), 2);
    assert_eq!(table.entry(b'z'), 5);
    assert_eq!(table.len(), 256);
    assert_eq!(table[b'c' as usize], 2);
}

#[test]
fn shift_table_single_byte_pattern() {
    let table = BadCharMapByteRev::create_bad_char_map("x".to_string()).unwrap();
    assert_eq!(table.entry(b'x'), 1);
    assert_eq!(table.entry(b'y'), 1);
}

#[test]
fn byte_sequences_agree() {
    let s = "héllo".to_string();
    let v: Vec<u8> = s.as_bytes().to_vec();
    assert_eq!(ByteSearchable::len(&s), 6);
    assert_eq!(ByteSearchable::len(&v), 6);
    for i in 0..6 {
        assert_eq!(s.value_at(i), v.value_at(i));
    }
    let a: Vec<u8> = ByteSearchable::iter(&s).copied().collect();
    assert_eq!(a, v);
    assert_eq!(v.stringify(), s);
    assert_eq!((&s).stringify(), s);
}

#[test]
fn matcher_keeps_its_pattern() {
    let m = Byte::from("abc".to_string()).unwrap();
    assert_eq!(m.pattern(), &vec![b'a', b'b', b'c']);
}

#[test]
fn shift_table_derefs_to_all_entries() {
    let table = BadCharMapByteRev::create_bad_char_map("abcab".to_string()).unwrap();
    let entries: &[usize] = &table;
    assert_eq!(entries.len(), 256);
    for c in 0..256usize {
        assert_eq!(entries[c], table.entry(c as u8));
    }
}

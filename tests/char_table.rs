use bmscan::char_table::bad_char_table;

fn lookup(t: &[(char, i32)], c: char) -> Option<i32> {
    let hits: Vec<i32> = t.iter().filter(|e| e.0 == c).map(|e| e.1).collect();
    assert!(hits.len() <= 1);
    hits.first().copied()
}

#[test]
fn char_table_uses_last_position() {
    let t = bad_char_table("hello".to_string());
    assert_eq!(t.len(), 4);
    assert_eq!(lookup(&t, 'h'), Some(4));
    assert_eq!(lookup(&t, 'e'), Some(3));
    assert_eq!(lookup(&t, 'l'), Some(1));
    assert_eq!(lookup(&t, 'o'), Some(1));
    assert_eq!(lookup(&t, 'z'), None);
}

#[test]
fn char_table_repeated_characters() {
    let t = bad_char_table("abcab".to_string());
    assert_eq!(t.len(), 3);
    assert_eq!(lookup(&t, 'a'), Some(1));
    assert_eq!(lookup(&t, 'b'), Some(1));
    assert_eq!(lookup(&t, 'c'), Some(2));
}

#[test]
fn char_table_counts_characters_not_bytes() {
    let t = bad_char_table("éab".to_string());
    assert_eq!(lookup(&t, 'é'), Some(2));
    assert_eq!(lookup(&t, 'a'), Some(1));
}

#[test]
fn char_table_empty_pattern() {
    assert!(bad_char_table(String::new()).is_empty());
}

use bmscan::boyermoore::Byte;
use bmscan::render::{build_output, ResultSet};

fn is_rendering(out: &str, label: &str, prefix: &str, matched: &str, suffix: &str) -> bool {
    for a in [label.to_string(), format!("\x1B[95m{}\x1B[0m", label)] {
        for m in [matched.to_string(), format!("\x1B[31m{}\x1B[0m", matched)] {
            if out == format!("{}: {}{}{}", a, prefix, m, suffix) {
                return true;
            }
        }
    }
    false
}

#[test]
fn build_output_splits_line() {
    let out = build_output(2, "cd".to_string(), "abcdef".to_string(), "7".to_string());
    assert!(is_rendering(&out, "7", "ab", "cd", "ef"), "{:?}", out);
}

#[test]
fn build_output_match_at_end() {
    let out = build_output(4, "ef".to_string(), "abcdef".to_string(), "1".to_string());
    assert!(is_rendering(&out, "1", "abcd", "ef", ""), "{:?}", out);
}

#[test]
fn result_set_from_labels_with_line_number() {
    let r = ResultSet::from(0, "abab".to_string(), b"ab".to_vec(), 12);
    assert_eq!(r.ps, "ab");
    assert_eq!(r.ts, "abab");
    assert_eq!(r.hit, 0);
    assert_eq!(r.line_num, 12);
    assert!(is_rendering(&r.output_string, "12", "", "ab", "ab"), "{:?}", r.output_string);
}

#[test]
fn result_set_negative_line_number() {
    let r = ResultSet::from(1, "xay".to_string(), b"a".to_vec(), -3);
    assert!(is_rendering(&r.output_string, "-3", "x", "a", "y"), "{:?}", r.output_string);
}

#[test]
fn line_rendering_rightmost_first() {
    let m = Byte::from("ab".to_string()).unwrap();
    let out = m.find_full_all_in("abab".to_string(), 3);
    assert_eq!(out.len(), 2);
    assert!(is_rendering(&out[0], "3", "ab", "ab", ""), "{:?}", out[0]);
    assert!(is_rendering(&out[1], "3", "", "ab", "ab"), "{:?}", out[1]);
}

#[test]
fn line_rendering_without_match() {
    let m = Byte::from("zz".to_string()).unwrap();
    assert!(m.find_full_all_in("abab".to_string(), 1).is_empty());
}

#[test]
fn build_output_line_with_escape_character() {
    let out = build_output(0, "a".to_string(), "a\x1Bb".to_string(), "2".to_string());
    assert!(out.ends_with("\x1Bb"), "{:?}", out);
    assert!(out.starts_with("2: a") || out.starts_with("\x1B[95m2\x1B[0m: "), "{:?}", out);
}

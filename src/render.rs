use colored::Colorize;
use vstd::prelude::*;
use vstd::string::{StrSliceExecFns, StringExecFns};
use vstd::utf8::{decode_utf8, encode_utf8, valid_utf8};
use crate::boyermoore::{all_matches, matches_at, utf8_to_string, Byte, ByteSearchable};

verus! {

/// The escape character that opens a terminal color sequence.
pub open spec fn escape() -> char {
    '\x1B'
}

/// Whether `s` holds no escape character.
pub open spec fn no_escape(s: Seq<char>) -> bool {
    forall|i: int| 0 <= i < s.len() ==> #[trigger] s[i] != escape()
}

/// `s` between the terminal sequence that sets foreground color `code` and
/// the one that resets all attributes.
pub open spec fn painted(s: Seq<char>, code: Seq<char>) -> Seq<char> {
    seq![escape(), '['] + code + seq!['m'] + s + seq![escape(), '[', '0', 'm']
}

/// `r` shows `s`: either as it is (when the terminal takes no colors) or
/// painted in color `code`.
pub open spec fn shown_as(r: Seq<char>, s: Seq<char>, code: Seq<char>) -> bool {
    r == s || r == painted(s, code)
}

/// The color code of red.
pub open spec fn red_code() -> Seq<char> {
    seq!['3', '1']
}

/// The color code of bright purple.
pub open spec fn bright_purple_code() -> Seq<char> {
    seq!['9', '5']
}

/// Relies on `colored`'s `red` and the `Display` of `ColoredString`: without
/// colors the text as it is, with colors the text painted red (a text with
/// no escape character is not rewritten).
#[verifier::external_body]
fn paint_red(s: &str) -> (r: String)
    ensures
        no_escape(s@) ==> shown_as(r@, s@, red_code()),
{
    s.red().to_string()
}

/// Relies on `colored`'s `bright_purple` and the `Display` of
/// `ColoredString`, as `paint_red` does.
#[verifier::external_body]
fn paint_bright_purple(s: &str) -> (r: String)
    ensures
        no_escape(s@) ==> shown_as(r@, s@, bright_purple_code()),
{
    s.bright_purple().to_string()
}

/// The character of decimal digit `d`.
pub open spec fn digit_char(d: nat) -> char {
    if d == 0 { '0' }
    else if d == 1 { '1' }
    else if d == 2 { '2' }
    else if d == 3 { '3' }
    else if d == 4 { '4' }
    else if d == 5 { '5' }
    else if d == 6 { '6' }
    else if d == 7 { '7' }
    else if d == 8 { '8' }
    else { '9' }
}

/// The decimal digits of `n`, most significant first.
pub open spec fn decimal_digits(n: nat) -> Seq<char>
    decreases n,
{
    if n < 10 {
        seq![digit_char(n)]
    } else {
        decimal_digits(n / 10).push(digit_char(n % 10))
    }
}

/// The decimal form of `n`, with a leading `-` when it is negative.
pub open spec fn decimal(n: int) -> Seq<char> {
    if n < 0 {
        seq!['-'] + decimal_digits((-n) as nat)
    } else {
        decimal_digits(n as nat)
    }
}

/// Relies on the `Display` of `i32`: its decimal form.
#[verifier::external_body]
fn decimal_string(n: i32) -> (r: String)
    ensures
        r@ == decimal(n as int),
{
    n.to_string()
}

/// Whether `out` renders the match at character `hit`, `len` characters
/// long, of line `ts` under label `label`: the shown label, `": "`, the line
/// before the match, the shown match, and the line after it. The label and
/// the match are each shown plainly or in their color; for one that holds an
/// escape character, how it is shown is left open.
pub open spec fn is_rendering(out: Seq<char>, hit: int, len: int, ts: Seq<char>, label: Seq<char>) -> bool {
    exists|a: Seq<char>, m: Seq<char>|
        #![trigger shown_as(a, label, bright_purple_code()), shown_as(m, ts.subrange(hit, hit + len), red_code())]
        {
            &&& out == a + seq![':', ' '] + ts.subrange(0, hit) + m + ts.subrange(hit + len, ts.len() as int)
            &&& no_escape(label) ==> shown_as(a, label, bright_purple_code())
            &&& no_escape(ts.subrange(hit, hit + len)) ==> shown_as(m, ts.subrange(hit, hit + len), red_code())
        }
}

/// Renders the match at character `hit` of line `ts`, as long as `ps` is in
/// bytes, under the label `line_num`.
pub fn build_output(hit: usize, ps: String, ts: String, line_num: String) -> (r: String)
    requires
        hit + encode_utf8(ps@).len() <= ts@.len(),
    ensures
        is_rendering(r@, hit as int, encode_utf8(ps@).len() as int, ts@, line_num@),
{
    let plen = ps.as_str().as_bytes().len();
    let n = ts.as_str().unicode_len();
    let ph_index = hit + plen;
    let prefix = ts.as_str().substring_char(0, hit);
    let matched = ts.as_str().substring_char(hit, ph_index);
    let suffix = ts.as_str().substring_char(ph_index, n);
    let label = paint_bright_purple(line_num.as_str());
    let colored_match = paint_red(matched);
    let ghost a = label@;
    let ghost m = colored_match@;
    let mut out = label;
    out.append(": ");
    out.append(prefix);
    out.append(colored_match.as_str());
    out.append(suffix);
    proof {
        reveal_strlit(": ");
        let ts_ = ts@;
        assert(matched@ == ts_.subrange(hit as int, ph_index as int));
        assert(out@ =~= a + seq![':', ' '] + ts_.subrange(0, hit as int) + m + ts_.subrange(ph_index as int, ts_.len() as int));
        assert(no_escape(line_num@) ==> shown_as(a, line_num@, bright_purple_code()));
        assert(no_escape(ts_.subrange(hit as int, ph_index as int)) ==> shown_as(m, ts_.subrange(hit as int, ph_index as int), red_code()));
        // Witnesses for the shown label and match.
        let _ = shown_as(a, line_num@, bright_purple_code());
        let _ = shown_as(m, ts_.subrange(hit as int, ph_index as int), red_code());
    }
    out
}


/// Whether every byte of `b` is below 128, so that each stands for one
/// character.
pub open spec fn single_byte_chars(b: Seq<u8>) -> bool {
    forall|i: int| 0 <= i < b.len() ==> #[trigger] b[i] < 128
}

/// Bytes below 128 are valid UTF-8 and decode to one character each.
proof fn lemma_single_byte_chars(b: Seq<u8>)
    requires
        single_byte_chars(b),
    ensures
        valid_utf8(b),
        decode_utf8(b).len() == b.len(),
{
    let c = Seq::new(b.len(), |i: int| b[i] as char);
    assert(vstd::utf8::is_ascii_chars(c));
    vstd::utf8::is_ascii_chars_encode_utf8(c);
    assert(encode_utf8(c) =~= b);
    vstd::utf8::encode_utf8_valid_utf8(c);
    vstd::utf8::encode_utf8_decode_utf8(c);
}

/// One rendered match, with what it was built from.
pub struct ResultSet {
    pub ps: String,
    pub ts: String,
    pub hit: usize,
    pub output_string: String,
    pub line_num: i32,
}

impl ResultSet {
    /// Renders the match at `hit` of line `text` for the UTF-8 `pattern`,
    /// labelled with line number `line_num`.
    pub fn from(hit: usize, text: String, pattern: Vec<u8>, line_num: i32) -> (r: ResultSet)
        requires
            valid_utf8(pattern@),
            hit + pattern@.len() <= text@.len(),
        ensures
            r.ps@ == decode_utf8(pattern@),
            r.ts@ == text@,
            r.hit == hit,
            r.line_num == line_num,
            is_rendering(r.output_string@, hit as int, pattern@.len() as int, text@, decimal(line_num as int)),
    {
        let ghost pb = pattern@;
        let ps = match utf8_to_string(pattern) {
            Some(s) => s,
            None => String::new(),
        };
        proof {
            vstd::utf8::decode_utf8_encode_utf8(pb);
        }
        let ts = text;
        let output_string = build_output(hit, ps.clone(), ts.clone(), decimal_string(line_num));
        ResultSet { ps, ts, hit, output_string, line_num }
    }
}

/// Renders each match of `result` in line `text`.
fn display_and_format(result: Vec<usize>, text: String, pattern: Vec<u8>, line_num: i32) -> (r: Vec<String>)
    requires
        result@.len() > 0 ==> valid_utf8(pattern@),
        forall|i: int| 0 <= i < result@.len() ==> #[trigger] result@[i] + pattern@.len() <= text@.len(),
    ensures
        r@.len() == result@.len(),
        forall|i: int|
            0 <= i < r@.len() ==> is_rendering(
                #[trigger] r@[i]@,
                result@[i] as int,
                pattern@.len() as int,
                text@,
                decimal(line_num as int),
            ),
{
    let mut out: Vec<String> = Vec::new();
    let mut i: usize = 0;
    while i < result.len()
        invariant
            i <= result@.len(),
            out@.len() == i,
            result@.len() > 0 ==> valid_utf8(pattern@),
            forall|j: int| 0 <= j < result@.len() ==> #[trigger] result@[j] + pattern@.len() <= text@.len(),
            forall|j: int|
                0 <= j < i ==> is_rendering(
                    #[trigger] out@[j]@,
                    result@[j] as int,
                    pattern@.len() as int,
                    text@,
                    decimal(line_num as int),
                ),
        decreases result@.len() - i,
    {
        let matched = result[i];
        assert(matched + pattern@.len() <= text@.len());
        let rs = ResultSet::from(matched, text.clone(), pattern.clone(), line_num);
        out.push(rs.output_string);
        i = i + 1;
    }
    out
}

impl Byte {
    /// Scans `text` and renders each match, rightmost first, under the
    /// label `line_number`. The scan counts bytes while rendering slices the
    /// line by characters; the two agree only where every character is one
    /// byte, so the line is required to hold only such characters.
    pub fn find_full_all_in<T: ByteSearchable>(&self, text: T, line_number: i32) -> (r: Vec<String>)
        requires
            single_byte_chars(text.bytes()),
        ensures
            r@.len() == all_matches(text.bytes(), self@).len(),
            forall|i: int|
                0 <= i < r@.len() ==> is_rendering(
                    #[trigger] r@[i]@,
                    all_matches(text.bytes(), self@)[i] as int,
                    self@.len() as int,
                    decode_utf8(text.bytes()),
                    decimal(line_number as int),
                ),
    {
        let ghost t = text.bytes();
        let ghost p = self@;
        let text_len = text.len();
        proof {
            assert(t.len() == text_len);
            lemma_single_byte_chars(t);
        }
        let line_text: String = text.stringify();
        let result: Vec<usize> = self.find_full_all(text);
        let pattern = self.pattern().clone();
        proof {
            assert forall|i: int| 0 <= i < result@.len() implies #[trigger] result@[i] + pattern@.len() <= line_text@.len() by {
                crate::laws::lemma_match_set_is_exact(t, p, result@[i]);
                assert(result@.contains(result@[i]));
            }
            if result@.len() > 0 {
                let k = result@[0];
                crate::laws::lemma_match_set_is_exact(t, p, k);
                assert(result@.contains(k));
                assert(matches_at(t, p, k as int));
                assert forall|j: int| 0 <= j < p.len() implies #[trigger] p[j] < 128 by {
                    assert(t[k + j] == p[j]);
                }
                lemma_single_byte_chars(p);
            }
        }
        display_and_format(result, line_text, pattern, line_number)
    }
}

} // verus!

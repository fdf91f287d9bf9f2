use core::slice::Iter;
use vstd::prelude::*;
use vstd::utf8::{decode_utf8, valid_utf8};

verus! {

/// Uniform read access to a buffer of bytes: its length, the byte at an
/// index, forward iteration, and (for valid UTF-8) its decoded text.
pub trait ByteSearchable {
    /// The bytes of the buffer.
    spec fn bytes(&self) -> Seq<u8>;

    /// The number of bytes.
    fn len(&self) -> (r: usize)
        ensures
            r == self.bytes().len(),
    ;

    /// The byte at `index`.
    fn value_at(&self, index: usize) -> (r: u8)
        requires
            index < self.bytes().len(),
        ensures
            r == self.bytes()[index as int],
    ;

    /// A forward iterator over the bytes, from the first.
    fn iter(&self) -> (r: Iter<u8>)
        ensures
            vstd::std_specs::slice::into_iter_elts(r) == self.bytes(),
            vstd::std_specs::iter::IteratorSpec::initial_value_relation(&r, &r),
            vstd::std_specs::iter::IteratorSpec::decrease(&r) is Some,
    ;

    /// The text that the bytes encode.
    fn stringify(&self) -> (r: String)
        requires
            valid_utf8(self.bytes()),
        ensures
            r@ == decode_utf8(self.bytes()),
    ;
}

/// Relies on `String::from_utf8`: it succeeds exactly on valid UTF-8, and
/// the string then holds the characters that the bytes encode.
#[verifier::external_body]
pub(crate) fn utf8_to_string(b: Vec<u8>) -> (r: Option<String>)
    ensures
        r is Some <==> valid_utf8(b@),
        r matches Some(s) ==> s@ == decode_utf8(b@),
{
    String::from_utf8(b).ok()
}

impl ByteSearchable for String {
    open spec fn bytes(&self) -> Seq<u8> {
        vstd::utf8::encode_utf8(self@)
    }

    fn len(&self) -> (r: usize) {
        self.as_str().as_bytes().len()
    }

    fn value_at(&self, index: usize) -> (r: u8) {
        self.as_str().as_bytes()[index]
    }

    fn iter(&self) -> (r: Iter<u8>) {
        self.as_str().as_bytes().iter()
    }

    fn stringify(&self) -> (r: String) {
        proof {
            vstd::utf8::encode_utf8_decode_utf8(self@);
        }
        self.clone()
    }
}

impl ByteSearchable for Vec<u8> {
    open spec fn bytes(&self) -> Seq<u8> {
        self@
    }

    fn len(&self) -> (r: usize) {
        Vec::len(self)
    }

    fn value_at(&self, index: usize) -> (r: u8) {
        self[index]
    }

    fn iter(&self) -> (r: Iter<u8>) {
        self.as_slice().iter()
    }

    fn stringify(&self) -> (r: String) {
        let r = utf8_to_string(self.clone());
        match r {
            Some(s) => s,
            None => String::new(),
        }
    }
}

impl<T: ByteSearchable> ByteSearchable for &T {
    open spec fn bytes(&self) -> Seq<u8> {
        (**self).bytes()
    }

    fn len(&self) -> (r: usize) {
        (**self).len()
    }

    fn value_at(&self, index: usize) -> (r: u8) {
        (**self).value_at(index)
    }

    fn iter(&self) -> (r: Iter<u8>) {
        (**self).iter()
    }

    fn stringify(&self) -> (r: String) {
        (**self).stringify()
    }
}

/// The smallest index `j` with `from <= j < p.len()` and `p[j] == c`, or
/// `p.len()` when there is none.
pub open spec fn first_index_from(p: Seq<u8>, c: u8, from: int) -> int
    decreases p.len() - from,
{
    if from >= p.len() {
        p.len() as int
    } else if p[from] == c {
        from
    } else {
        first_index_from(p, c, from + 1)
    }
}

/// The shift table entry of byte `c` for pattern `p`: the smallest index at
/// least 1 at which `c` occurs in `p`, or `p.len()` when there is none.
pub open spec fn shift_entry(p: Seq<u8>, c: u8) -> int {
    first_index_from(p, c, 1)
}

/// A table of 256 entries, one per byte value, indexed directly.
pub struct BadCharMapByte {
    t: [usize; 256],
}

impl View for BadCharMapByte {
    type V = Seq<usize>;

    closed spec fn view(&self) -> Seq<usize> {
        self.t@
    }
}

impl core::ops::Deref for BadCharMapByte {
    type Target = [usize];

    fn deref(&self) -> (r: &[usize])
        ensures
            r@ == self@,
    {
        self.t.as_slice()
    }
}

/// The shift table of a right-to-left scan: for each byte value, the
/// smallest index at least 1 at which it occurs in the pattern, or the
/// pattern's length when it occurs at no such index.
pub struct BadCharMapByteRev {
    t: [usize; 256],
}

impl View for BadCharMapByteRev {
    type V = Seq<usize>;

    closed spec fn view(&self) -> Seq<usize> {
        self.t@
    }
}

impl core::ops::Deref for BadCharMapByteRev {
    type Target = [usize];

    fn deref(&self) -> (r: &[usize])
        ensures
            r@ == self@,
    {
        self.t.as_slice()
    }
}

impl BadCharMapByteRev {
    /// Whether this is the shift table of pattern `p`.
    pub open spec fn is_table_for(&self, p: Seq<u8>) -> bool {
        &&& self@.len() == 256
        &&& forall|c: u8| #[trigger] self@[c as int] == shift_entry(p, c)
    }

    /// The entry of byte `c`.
    pub fn entry(&self, c: u8) -> (r: usize)
        ensures
            r == self@[c as int],
    {
        self.t[c as usize]
    }

    /// Builds the shift table of `pattern`; `None` when the pattern is empty.
    pub fn create_bad_char_map<T: ByteSearchable>(pattern: T) -> (r: Option<BadCharMapByteRev>)
        ensures
            r is None <==> pattern.bytes().len() == 0,
            r matches Some(m) ==> m.is_table_for(pattern.bytes()),
    {
        let pattern_len = pattern.len();
        if pattern_len == 0 {
            return None;
        }
        let ghost p = pattern.bytes();
        let mut bad_char_map = [pattern_len; 256];
        let mut i: usize = pattern_len - 1;
        while i >= 1
            invariant
                0 <= i < p.len(),
                p == pattern.bytes(),
                bad_char_map@.len() == 256,
                forall|c: u8| #[trigger] bad_char_map@[c as int] == first_index_from(p, c, i + 1),
            decreases i,
        {
            let c = pattern.value_at(i);
            bad_char_map[c as usize] = i;
            assert forall|d: u8| #[trigger] bad_char_map@[d as int] == first_index_from(p, d, i as int) by {
                if d != c {
                    assert(bad_char_map@[d as int] == first_index_from(p, d, i + 1));
                }
            }
            i = i - 1;
        }
        Some(BadCharMapByteRev { t: bad_char_map })
    }
}

/// Whether `p` occurs in `t` starting at byte offset `k`.
pub open spec fn matches_at(t: Seq<u8>, p: Seq<u8>, k: int) -> bool {
    &&& 0 <= k
    &&& k + p.len() <= t.len()
    &&& forall|j: int| 0 <= j < p.len() ==> #[trigger] t[k + j] == p[j]
}

/// The offsets `k` with `lo <= k < hi` at which `p` occurs in `t`, highest
/// first.
pub open spec fn occurrences_in(t: Seq<u8>, p: Seq<u8>, lo: int, hi: int) -> Seq<usize>
    decreases hi - lo,
{
    if lo >= hi {
        seq![]
    } else if matches_at(t, p, lo) {
        occurrences_in(t, p, lo + 1, hi).push(lo as usize)
    } else {
        occurrences_in(t, p, lo + 1, hi)
    }
}

/// Every offset at which a non-empty `p` occurs in `t`, highest first; none
/// for an empty `p`.
pub open spec fn all_matches(t: Seq<u8>, p: Seq<u8>) -> Seq<usize> {
    if p.len() == 0 {
        seq![]
    } else {
        occurrences_in(t, p, 0, t.len() - p.len() + 1)
    }
}

/// The first `limit` elements of `s`, or all of `s` when `limit` is 0.
pub open spec fn truncate(s: Seq<usize>, limit: nat) -> Seq<usize> {
    if limit > 0 && s.len() > limit {
        s.take(limit as int)
    } else {
        s
    }
}

/// Splitting the range of offsets at `mid` splits the list of occurrences.
pub proof fn lemma_occurrences_split(t: Seq<u8>, p: Seq<u8>, lo: int, mid: int, hi: int)
    requires
        lo <= mid <= hi,
    ensures
        occurrences_in(t, p, lo, hi) == occurrences_in(t, p, mid, hi) + occurrences_in(t, p, lo, mid),
    decreases mid - lo,
{
    if lo < mid {
        lemma_occurrences_split(t, p, lo + 1, mid, hi);
        assert(occurrences_in(t, p, lo, hi) =~= occurrences_in(t, p, mid, hi) + occurrences_in(t, p, lo, mid));
    } else {
        assert(occurrences_in(t, p, lo, mid) =~= seq![]);
        assert(occurrences_in(t, p, lo, hi) =~= occurrences_in(t, p, mid, hi) + occurrences_in(t, p, lo, mid));
    }
}

/// An offset range that holds no occurrence contributes nothing.
proof fn lemma_occurrences_skip(t: Seq<u8>, p: Seq<u8>, lo: int, mid: int, hi: int)
    requires
        lo <= mid <= hi,
        forall|k: int| lo <= k < mid ==> !#[trigger] matches_at(t, p, k),
    ensures
        occurrences_in(t, p, lo, hi) == occurrences_in(t, p, mid, hi),
    decreases mid - lo,
{
    if lo < mid {
        lemma_occurrences_skip(t, p, lo + 1, mid, hi);
    }
}

/// Every entry of a shift table lies in `[from, p.len()]`, and no index
/// below it at or after `from` holds the byte.
proof fn lemma_first_index_from(p: Seq<u8>, c: u8, from: int)
    requires
        0 <= from <= p.len(),
    ensures
        from <= first_index_from(p, c, from) <= p.len(),
        forall|j: int| from <= j < first_index_from(p, c, from) ==> p[j] != c,
    decreases p.len() - from,
{
    if from < p.len() && p[from] != c {
        lemma_first_index_from(p, c, from + 1);
    }
}

/// The amount by which a window that starts at `w` moves left.
pub open spec fn shift_amount(t: Seq<u8>, p: Seq<u8>, w: int) -> int {
    let a = shift_entry(p, t[w]);
    let b = if t[w - 1] == p[0] { 1 } else { shift_entry(p, t[w - 1]) + 1 };
    if a >= b { a } else { b }
}

/// Moving the window left by the shift amount passes over no occurrence.
proof fn lemma_shift_is_safe(t: Seq<u8>, p: Seq<u8>, w: int)
    requires
        p.len() >= 1,
        1 <= w,
        w + p.len() <= t.len(),
    ensures
        1 <= shift_amount(t, p, w) <= p.len() + 1,
        forall|k: int| w - shift_amount(t, p, w) < k < w ==> !#[trigger] matches_at(t, p, k),
{
    let s = shift_amount(t, p, w);
    lemma_first_index_from(p, t[w], 1);
    lemma_first_index_from(p, t[w - 1], 1);
    assert forall|k: int| w - s < k < w implies !#[trigger] matches_at(t, p, k) by {
        if matches_at(t, p, k) {
            let d = w - k;
            if d < shift_entry(p, t[w]) {
                assert(t[k + d] == p[d]);
            } else {
                assert(t[k + (d - 1)] == p[d - 1]);
            }
        }
    }
}

/// Scans `text` for `pattern` from its end toward its start and returns the
/// offsets of the occurrences, highest first; with `limit > 0`, at most
/// `limit` of them.
pub fn find_full<TT: ByteSearchable, TP: ByteSearchable>(
    text: TT,
    pattern: TP,
    bad_char_map: &BadCharMapByteRev,
    limit: usize,
) -> (r: Vec<usize>)
    requires
        pattern.bytes().len() > 0 ==> bad_char_map.is_table_for(pattern.bytes()),
    ensures
        r@ == truncate(all_matches(text.bytes(), pattern.bytes()), limit as nat),
{
    let text_len = text.len();
    let pattern_len = pattern.len();
    let ghost t = text.bytes();
    let ghost p = pattern.bytes();
    let mut result: Vec<usize> = Vec::new();
    if text_len == 0 || pattern_len == 0 || text_len < pattern_len {
        proof {
            if pattern_len > 0 {
                assert(occurrences_in(t, p, 0, t.len() - p.len() + 1) =~= seq![]);
            }
        }
        return result;
    }
    let ghost top: int = t.len() - p.len() + 1;
    let ghost all = all_matches(t, p);
    let pattern_len_dec = pattern_len - 1;
    let first_pattern_char = pattern.value_at(0);
    let mut shift = text_len - 1;
    let start_index = pattern_len_dec;
    assert(result@ =~= occurrences_in(t, p, top, top));
    loop
        invariant_except_break
            pattern_len_dec <= shift < text_len,
            result@ == occurrences_in(t, p, shift - pattern_len_dec + 1, top),
            limit > 0 ==> result@.len() < limit,
        invariant
            t == text.bytes(),
            p == pattern.bytes(),
            text_len == t.len(),
            pattern_len == p.len(),
            1 <= pattern_len <= text_len,
            pattern_len_dec == pattern_len - 1,
            start_index == pattern_len_dec,
            first_pattern_char == p[0],
            top == t.len() - p.len() + 1,
            all == all_matches(t, p),
            bad_char_map.is_table_for(p),
        ensures
            result@ == truncate(all, limit as nat),
        decreases shift,
    {
        let ghost w: int = shift - pattern_len_dec;
        let mut i: usize = 0;
        let mut mismatch = false;
        while !mismatch && i < pattern_len
            invariant
                t == text.bytes(),
                p == pattern.bytes(),
                pattern_len == p.len(),
                w == shift - pattern_len_dec,
                pattern_len_dec == pattern_len - 1,
                pattern_len_dec <= shift < text_len,
                text_len == t.len(),
                0 <= i <= pattern_len,
                mismatch ==> !matches_at(t, p, w),
                !mismatch ==> forall|j: int| 0 <= j < i ==> #[trigger] t[w + j] == p[j],
            decreases pattern_len - i + if mismatch { 0int } else { 1int },
        {
            if text.value_at(shift - pattern_len_dec + i) != pattern.value_at(i) {
                mismatch = true;
                assert(t[w + i] != p[i as int]);
            } else {
                i = i + 1;
            }
        }
        proof {
            lemma_occurrences_split(t, p, 0, w, top);
        }
        if mismatch {
            assert(result@ == occurrences_in(t, p, w, top));
            if shift < pattern_len {
                assert(occurrences_in(t, p, 0, w) =~= seq![]);
                assert(result@ =~= all);
                break;
            }
        } else {
            assert(i == pattern_len);
            assert forall|j: int| 0 <= j < p.len() implies #[trigger] t[w + j] == p[j] by {
                assert(0 <= j < i);
            }
            assert(matches_at(t, p, w));
            result.push(shift - pattern_len_dec);
            assert(result@ =~= occurrences_in(t, p, w, top));
            if shift == start_index {
                assert(occurrences_in(t, p, 0, w) =~= seq![]);
                assert(result@ =~= all);
                break;
            }
            if result.len() == limit {
                assert(all == result@ + occurrences_in(t, p, 0, w));
                assert(all.take(limit as int) =~= result@);
                break;
            }
        }
        proof {
            lemma_shift_is_safe(t, p, w);
        }
        let s = {
            let a = bad_char_map.entry(text.value_at(shift - pattern_len_dec));
            let c = text.value_at(shift - pattern_len);
            let b = if c == first_pattern_char {
                1
            } else {
                bad_char_map.entry(c) + 1
            };
            if a >= b { a } else { b }
        };
        assert(s == shift_amount(t, p, w));
        if shift < s {
            proof {
                lemma_occurrences_skip(t, p, 0, w, top);
            }
            assert(result@ =~= all);
            break;
        }
        shift = shift - s;
        if shift < start_index {
            proof {
                lemma_occurrences_skip(t, p, 0, w, top);
            }
            assert(result@ =~= all);
            break;
        }
        proof {
            lemma_occurrences_skip(t, p, shift - pattern_len_dec + 1, w, top);
        }
    }
    result
}


/// A matcher: one pattern bound to its shift table, for repeated scans.
pub struct Byte {
    bad_char_map_rev: BadCharMapByteRev,
    pattern: Vec<u8>,
}

impl View for Byte {
    type V = Seq<u8>;

    /// The pattern.
    closed spec fn view(&self) -> Seq<u8> {
        self.pattern@
    }
}

impl Byte {
    #[verifier::type_invariant]
    spec fn inv(self) -> bool {
        &&& self.pattern@.len() > 0
        &&& self.bad_char_map_rev.is_table_for(self.pattern@)
    }

    /// Builds the matcher of `pattern`; `None` when the pattern is empty.
    pub fn from<T: ByteSearchable>(pattern: T) -> (r: Option<Byte>)
        ensures
            r is None <==> pattern.bytes().len() == 0,
            r matches Some(m) ==> m@ == pattern.bytes(),
    {
        let bad_char_map_rev = match BadCharMapByteRev::create_bad_char_map(&pattern) {
            Some(m) => m,
            None => return None,
        };
        let mut bytes: Vec<u8> = Vec::new();
        for b in it: pattern.iter()
            invariant
                bytes@.len() == it.index(),
                forall|j: int| 0 <= j < bytes@.len() ==> bytes@[j] == *it.seq()[j],
        {
            bytes.push(*b);
        }
        assert(bytes@ =~= pattern.bytes());
        Some(Byte { bad_char_map_rev, pattern: bytes })
    }

    /// The pattern of this matcher.
    pub fn pattern(&self) -> (r: &Vec<u8>)
        ensures
            r@ == self@,
    {
        &self.pattern
    }

    /// Every offset at which the pattern occurs in `text`, highest first.
    pub fn find_full_all<T: ByteSearchable>(&self, text: T) -> (r: Vec<usize>)
        ensures
            r@ == all_matches(text.bytes(), self@),
    {
        proof {
            use_type_invariant(self);
        }
        find_full(text, &self.pattern, &self.bad_char_map_rev, 0)
    }
}

} // verus!

use vstd::prelude::*;
use vstd::string::StrSliceExecFns;

verus! {

/// The largest index `j < n` with `p[j] == c`, or -1 when there is none.
pub open spec fn last_index_below(p: Seq<char>, c: char, n: int) -> int
    decreases n,
{
    if n <= 0 {
        -1
    } else if p[n - 1] == c {
        n - 1
    } else {
        last_index_below(p, c, n - 1)
    }
}

/// The skip of the character whose last position in a pattern of `len`
/// characters is `j`: its distance from the end, and at least 1.
pub open spec fn skip_for(len: int, j: int) -> int {
    if len - j - 1 > 1 {
        len - j - 1
    } else {
        1
    }
}

/// Whether `t` is the character skip table of the first `n` characters of
/// `p`, out of `len`: one entry per distinct character, in order of first
/// appearance, holding the skip of its last position among them.
pub open spec fn is_char_table(t: Seq<(char, i32)>, p: Seq<char>, n: int, len: int) -> bool {
    &&& forall|i: int, j: int| 0 <= i < j < t.len() ==> #[trigger] t[i].0 != #[trigger] t[j].0
    &&& forall|i: int|
        0 <= i < t.len() ==> {
            &&& 0 <= last_index_below(p, #[trigger] t[i].0, n)
            &&& t[i].1 == skip_for(len, last_index_below(p, t[i].0, n))
        }
    &&& forall|j: int| 0 <= j < n ==> exists|i: int| 0 <= i < t.len() && #[trigger] t[i].0 == #[trigger] p[j]
}

/// The character skip table of `pattern`: for each distinct character, its
/// distance from the end of the pattern at its last position, at least 1.
pub fn bad_char_table(pattern: String) -> (r: Vec<(char, i32)>)
    requires
        pattern@.len() <= i32::MAX,
    ensures
        is_char_table(r@, pattern@, pattern@.len() as int, pattern@.len() as int),
{
    let ghost p = pattern@;
    let length = pattern.as_str().unicode_len();
    let mut table: Vec<(char, i32)> = Vec::new();
    let mut index: usize = 0;
    while index < length
        invariant
            p == pattern@,
            length == p.len() <= i32::MAX,
            index <= length,
            is_char_table(table@, p, index as int, length as int),
        decreases length - index,
    {
        let c = pattern.as_str().get_char(index);
        let value: i32 = if (length as i32) - (index as i32) - 1 > 1 {
            (length as i32) - (index as i32) - 1
        } else {
            1
        };
        let ghost n = index as int;
        let ghost old_table = table@;
        let mut k: usize = 0;
        while k < table.len() && table[k].0 != c
            invariant
                k <= table@.len(),
                forall|i: int| 0 <= i < k ==> #[trigger] table@[i].0 != c,
            decreases table@.len() - k,
        {
            k = k + 1;
        }
        proof {
            assert forall|d: char| d != c implies #[trigger] last_index_below(p, d, n + 1)
                == last_index_below(p, d, n) by {}
            assert(last_index_below(p, c, n + 1) == n);
        }
        if k < table.len() {
            table.set(k, (c, value));
        } else {
            table.push((c, value));
        }
        proof {
            let t = table@;
            assert forall|i: int| 0 <= i < t.len() implies {
                &&& 0 <= last_index_below(p, #[trigger] t[i].0, n + 1)
                &&& t[i].1 == skip_for(length as int, last_index_below(p, t[i].0, n + 1))
            } by {
                if t[i].0 != c {
                    assert(t[i] == old_table[i]);
                }
            }
            assert forall|j: int| 0 <= j < n + 1 implies exists|i: int|
                0 <= i < t.len() && #[trigger] t[i].0 == #[trigger] p[j] by {
                if j < n {
                    let i0 = choose|i: int| 0 <= i < old_table.len() && #[trigger] old_table[i].0 == p[j];
                    if old_table[i0].0 == c {
                        assert(t[k as int].0 == p[j]);
                    } else {
                        assert(t[i0].0 == p[j]);
                    }
                } else {
                    assert(t[k as int].0 == p[j]);
                }
            }
        }
        index = index + 1;
    }
    table
}

} // verus!

use vstd::prelude::*;

use crate::value::Json;

verus! {

/// The position of the first `.` in `p` at or after `i`, or the length of
/// `p` when none is left.
pub open spec fn seg_end(p: Seq<char>, i: int) -> int
    decreases p.len() - i,
{
    if 0 <= i < p.len() {
        if p[i] == '.' {
            i
        } else {
            seg_end(p, i + 1)
        }
    } else {
        p.len() as int
    }
}

pub proof fn lemma_seg_end(p: Seq<char>, i: int)
    requires
        0 <= i <= p.len(),
    ensures
        i <= seg_end(p, i) <= p.len(),
        forall|k: int| i <= k < seg_end(p, i) ==> p[k] != '.',
        seg_end(p, i) < p.len() ==> p[seg_end(p, i)] == '.',
    decreases p.len() - i,
{
    if i < p.len() && p[i] != '.' {
        lemma_seg_end(p, i + 1);
    }
}

pub open spec fn is_digit(c: char) -> bool {
    48 <= c as u32 <= 57
}

/// A non-empty run of decimal digits.
pub open spec fn is_digits(s: Seq<char>) -> bool {
    s.len() > 0 && forall|k: int| 0 <= k < s.len() ==> is_digit(s[k])
}

/// The number a run of decimal digits denotes.
pub open spec fn digits_val(s: Seq<char>) -> int
    decreases s.len(),
{
    if s.len() == 0 {
        0
    } else {
        digits_val(s.drop_last()) * 10 + (s.last() as u32 - 48)
    }
}

pub proof fn lemma_digits_val_bounds(s: Seq<char>)
    requires
        forall|k: int| 0 <= k < s.len() ==> is_digit(s[k]),
    ensures
        digits_val(s) >= 0,
        forall|k: int| 0 <= k <= s.len() ==> digits_val(s.subrange(0, k)) <= digits_val(s),
    decreases s.len(),
{
    if s.len() > 0 {
        assert(forall|k: int| 0 <= k < s.drop_last().len() ==> is_digit(s.drop_last()[k]));
        lemma_digits_val_bounds(s.drop_last());
        assert forall|k: int| 0 <= k <= s.len() implies digits_val(s.subrange(0, k)) <= digits_val(
            s,
        ) by {
            if k == s.len() {
                assert(s.subrange(0, k) =~= s);
            } else {
                assert(s.subrange(0, k) =~= s.drop_last().subrange(0, k));
            }
        }
    }
}

/// Looks `key` up among `entries`, first entry with that key winning.
pub open spec fn obj_get(entries: Seq<(Vec<char>, Json)>, key: Seq<char>) -> Option<Json>
    decreases entries.len(),
{
    if entries.len() == 0 {
        None
    } else if entries[0].0@ == key {
        Some(entries[0].1)
    } else {
        obj_get(entries.drop_first(), key)
    }
}

/// One lookup step: a mapping is searched by key; a sequence accepts a
/// decimal segment as a zero-based index; anything else has no entries.
pub open spec fn value_get(v: Json, seg: Seq<char>) -> Option<Json> {
    match v {
        Json::Obj(entries) => obj_get(entries@, seg),
        Json::Arr(items) => if is_digits(seg) && 0 <= digits_val(seg) < items@.len() {
            Some(items@[digits_val(seg)])
        } else {
            None
        },
        _ => None,
    }
}

/// Resolves the dot-separated path `p[i..]` against `v`: each segment in
/// turn is looked up in the value reached so far, and a missing step makes
/// the whole path miss.
pub open spec fn resolve_path(v: Json, p: Seq<char>, i: int) -> Option<Json>
    decreases p.len() - i,
        via resolve_path_dec
{
    if seg_end(p, i) >= p.len() {
        value_get(v, p.subrange(i, p.len() as int))
    } else {
        match value_get(v, p.subrange(i, seg_end(p, i))) {
            Some(w) => resolve_path(w, p, seg_end(p, i) + 1),
            None => None,
        }
    }
}

#[via_fn]
proof fn resolve_path_dec(v: Json, p: Seq<char>, i: int) {
    if 0 <= i <= p.len() {
        lemma_seg_end(p, i);
    }
}

/// The value `path` leads to in `doc`, if any.
pub open spec fn resolve_spec(doc: Json, path: Seq<char>) -> Option<Json> {
    resolve_path(doc, path, 0)
}

/// True when the characters `k@` are exactly `p[lo..hi]`.
fn key_matches(k: &Vec<char>, p: &Vec<char>, lo: usize, hi: usize) -> (r: bool)
    requires
        lo <= hi <= p@.len(),
    ensures
        r == (k@ == p@.subrange(lo as int, hi as int)),
{
    if k.len() != hi - lo {
        proof {
            assert(k@ != p@.subrange(lo as int, hi as int));
        }
        return false;
    }
    let mut j: usize = 0;
    while j < k.len()
        invariant
            lo <= hi <= p@.len(),
            k@.len() == hi - lo,
            j <= k@.len(),
            forall|m: int| 0 <= m < j ==> k@[m] == p@[lo + m],
        decreases k@.len() - j,
    {
        if k[j] != p[lo + j] {
            proof {
                assert(k@[j as int] != p@.subrange(lo as int, hi as int)[j as int]);
            }
            return false;
        }
        j = j + 1;
    }
    proof {
        assert(k@ =~= p@.subrange(lo as int, hi as int));
    }
    true
}

/// Reads `p[lo..hi]` as a decimal index into a sequence of `items_len`
/// elements, if that is what it is and it is in range.
fn arr_index(items_len: usize, p: &Vec<char>, lo: usize, hi: usize) -> (r: Option<usize>)
    requires
        lo <= hi <= p@.len(),
    ensures
        match r {
            Some(ix) => is_digits(p@.subrange(lo as int, hi as int)) && ix < items_len
                && digits_val(p@.subrange(lo as int, hi as int)) == ix,
            None => !(is_digits(p@.subrange(lo as int, hi as int)) && 0 <= digits_val(
                p@.subrange(lo as int, hi as int),
            ) < items_len),
        },
{
    let ghost seg = p@.subrange(lo as int, hi as int);
    if lo == hi || items_len == 0 {
        return None;
    }
    let mut val: u128 = 0;
    let mut j: usize = lo;
    while j < hi
        invariant
            lo <= j <= hi <= p@.len(),
            seg == p@.subrange(lo as int, hi as int),
            forall|m: int| lo <= m < j ==> is_digit(p@[m]),
            val < items_len as u128,
            val == digits_val(p@.subrange(lo as int, j as int)),
        decreases hi - j,
    {
        let c = p[j];
        if !((c as u32) >= 48 && (c as u32) <= 57) {
            proof {
                assert(!is_digit(seg[j - lo]));
            }
            return None;
        }
        let d: u128 = ((c as u32) - 48) as u128;
        proof {
            assert(items_len as u128 <= u64::MAX as u128);
            assert(p@.subrange(lo as int, j + 1 as int).drop_last() =~= p@.subrange(
                lo as int,
                j as int,
            ));
        }
        let next: u128 = val * 10 + d;
        if next >= items_len as u128 {
            proof {
                if is_digits(seg) {
                    lemma_digits_val_bounds(seg);
                    assert(seg.subrange(0, j + 1 - lo) =~= p@.subrange(lo as int, j + 1 as int));
                    assert(digits_val(seg) >= digits_val(seg.subrange(0, j + 1 - lo)));
                }
            }
            return None;
        }
        val = next;
        j = j + 1;
    }
    proof {
        assert(seg =~= p@.subrange(lo as int, j as int));
        assert(is_digits(seg));
    }
    Some(val as usize)
}

/// One lookup step on a borrowed value.
fn value_get_exec<'a>(v: &'a Json, p: &Vec<char>, lo: usize, hi: usize) -> (r: Option<&'a Json>)
    requires
        lo <= hi <= p@.len(),
    ensures
        match r {
            Some(w) => value_get(*v, p@.subrange(lo as int, hi as int)) == Some(*w),
            None => value_get(*v, p@.subrange(lo as int, hi as int)) is None,
        },
{
    match v {
        Json::Obj(entries) => {
            let ghost seg = p@.subrange(lo as int, hi as int);
            proof {
                assert(entries@.skip(0) =~= entries@);
            }
            let mut k: usize = 0;
            while k < entries.len()
                invariant
                    *v == Json::Obj(*entries),
                    lo <= hi <= p@.len(),
                    seg == p@.subrange(lo as int, hi as int),
                    k <= entries@.len(),
                    obj_get(entries@, seg) == obj_get(entries@.skip(k as int), seg),
                decreases entries@.len() - k,
            {
                if key_matches(&entries[k].0, p, lo, hi) {
                    proof {
                        assert(entries@.skip(k as int)[0] == entries@[k as int]);
                    }
                    return Some(&entries[k].1);
                }
                proof {
                    assert(entries@.skip(k as int)[0] == entries@[k as int]);
                    assert(entries@.skip(k as int).drop_first() =~= entries@.skip(k + 1));
                }
                k = k + 1;
            }
            proof {
                assert(entries@.skip(entries@.len() as int).len() == 0);
            }
            None
        },
        Json::Arr(items) => {
            match arr_index(items.len(), p, lo, hi) {
                Some(ix) => Some(&items[ix]),
                None => None,
            }
        },
        _ => None,
    }
}

/// Walks a dot-separated path down a borrowed document value.
pub(crate) fn resolve_chars<'a>(doc: &'a Json, p: &Vec<char>) -> (r: Option<&'a Json>)
    ensures
        match r {
            Some(v) => resolve_spec(*doc, p@) == Some(*v),
            None => resolve_spec(*doc, p@) is None,
        },
{
    let mut cur: &Json = doc;
    let mut i: usize = 0;
    loop
        invariant
            i <= p@.len(),
            resolve_path(*doc, p@, 0) == resolve_path(*cur, p@, i as int),
        decreases p@.len() - i,
    {
        proof {
            lemma_seg_end(p@, i as int);
        }
        let e = find_seg_end(p, i);
        let step = value_get_exec(cur, p, i, e);
        if e == p.len() {
            return step;
        }
        match step {
            Some(w) => {
                cur = w;
                i = e + 1;
            },
            None => {
                return None;
            },
        }
    }
}

/// The position of the first `.` at or after `i`, or the end of `p`.
fn find_seg_end(p: &Vec<char>, i: usize) -> (e: usize)
    requires
        i <= p@.len(),
    ensures
        e as int == seg_end(p@, i as int),
        i <= e <= p@.len(),
{
    proof {
        lemma_seg_end(p@, i as int);
    }
    let mut j: usize = i;
    while j < p.len() && p[j] != '.'
        invariant
            i <= j <= p@.len(),
            seg_end(p@, i as int) == seg_end(p@, j as int),
        decreases p@.len() - j,
    {
        j = j + 1;
    }
    j
}

/// Follows the dot-separated `key` into `json`, one segment at a time, and
/// returns the value it names, or nothing when some step has no such entry.
pub fn get_nested_value<'a>(json: &'a Json, key: &str) -> (r: Option<&'a Json>)
    ensures
        match r {
            Some(v) => resolve_spec(*json, key@) == Some(*v),
            None => resolve_spec(*json, key@) is None,
        },
{
    let k = str_to_chars(key);
    resolve_chars(json, &k)
}

/// The characters of `s`, one by one.
pub fn str_to_chars(s: &str) -> (r: Vec<char>)
    ensures
        r@ == s@,
{
    let n = s.unicode_len();
    let mut r: Vec<char> = Vec::new();
    let mut i: usize = 0;
    while i < n
        invariant
            n == s@.len(),
            i <= n,
            r@ == s@.subrange(0, i as int),
        decreases n - i,
    {
        r.push(s.get_char(i));
        proof {
            assert(s@.subrange(0, i + 1 as int) =~= s@.subrange(0, i as int).push(s@[i as int]));
        }
        i = i + 1;
    }
    proof {
        assert(s@.subrange(0, s@.len() as int) =~= s@);
    }
    r
}

} // verus!

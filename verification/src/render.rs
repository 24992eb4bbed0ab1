use vstd::prelude::*;

use crate::resolve::resolve_spec;
use crate::resolve::resolve_chars;
use crate::text::push_all;
use crate::text::push_range;
use crate::text::push_scalar_text;
use crate::text::push_stripped;
use crate::text::scalar_text;
use crate::value::Json;

verus! {

/// The characters a marker path may be made of: letters, digits,
/// underscore, and the dot that separates segments.
pub open spec fn is_path_char(c: char) -> bool {
    ||| 97 <= c as u32 <= 122
    ||| 65 <= c as u32 <= 90
    ||| 48 <= c as u32 <= 57
    ||| c == '_'
    ||| c == '.'
}

/// The length of the maximal run of path characters starting at `i`.
pub open spec fn path_run(t: Seq<char>, i: int) -> int
    decreases t.len() - i,
{
    if 0 <= i < t.len() && is_path_char(t[i]) {
        1 + path_run(t, i + 1)
    } else {
        0
    }
}

pub proof fn lemma_path_run_chars(t: Seq<char>, a: int)
    requires
        0 <= a <= t.len(),
    ensures
        0 <= path_run(t, a),
        a + path_run(t, a) <= t.len(),
        forall|k: int| a <= k < a + path_run(t, a) ==> is_path_char(t[k]),
        a + path_run(t, a) < t.len() ==> !is_path_char(t[a + path_run(t, a)]),
    decreases t.len() - a,
{
    if a < t.len() && is_path_char(t[a]) {
        lemma_path_run_chars(t, a + 1);
    }
}

pub proof fn lemma_path_run_exact(t: Seq<char>, a: int, b: int)
    requires
        0 <= a <= b <= t.len(),
        forall|k: int| a <= k < b ==> is_path_char(t[k]),
        b == t.len() || !is_path_char(t[b]),
    ensures
        path_run(t, a) == b - a,
    decreases b - a,
{
    if a < b {
        lemma_path_run_exact(t, a + 1, b);
    }
}

/// A scalar marker at `i`: an opening brace, a non-empty maximal run of
/// path characters, and a closing brace right after the run.
pub open spec fn scalar_at(t: Seq<char>, i: int) -> bool {
    &&& 0 <= i < t.len()
    &&& t[i] == '{'
    &&& path_run(t, i + 1) > 0
    &&& i + 1 + path_run(t, i + 1) < t.len()
    &&& t[i + 1 + path_run(t, i + 1)] == '}'
}

/// One past the closing brace of the scalar marker at `i`.
pub open spec fn scalar_end(t: Seq<char>, i: int) -> int {
    i + 2 + path_run(t, i + 1)
}

/// The path text between the braces of the scalar marker at `i`.
pub open spec fn scalar_path(t: Seq<char>, i: int) -> Seq<char> {
    t.subrange(i + 1, i + 1 + path_run(t, i + 1))
}

/// A spread marker at `i`: three dots immediately followed by a scalar
/// marker.
pub open spec fn spread_at(t: Seq<char>, i: int) -> bool {
    &&& 0 <= i
    &&& i + 3 < t.len()
    &&& t[i] == '.'
    &&& t[i + 1] == '.'
    &&& t[i + 2] == '.'
    &&& scalar_at(t, i + 3)
}

/// One past the closing brace of the spread marker at `i`.
pub open spec fn spread_end(t: Seq<char>, i: int) -> int {
    scalar_end(t, i + 3)
}

/// The lines a spread marker makes from a sequence, from element `i` on:
/// one `- ` line per element, scalar-rendered.
pub open spec fn arr_block_from(items: Seq<Json>, i: int) -> Seq<char>
    decreases items.len() - i,
{
    if 0 <= i < items.len() {
        seq!['-', ' '] + scalar_text(items[i]) + seq!['\n'] + arr_block_from(items, i + 1)
    } else {
        Seq::empty()
    }
}

/// The lines a spread marker makes from a mapping, from entry `i` on: one
/// `- key: value` line per entry, the key with quotes dropped, the value
/// scalar-rendered.
pub open spec fn obj_block_from(entries: Seq<(Vec<char>, Json)>, i: int) -> Seq<char>
    decreases entries.len() - i,
{
    if 0 <= i < entries.len() {
        seq!['-', ' '] + crate::text::strip_quotes(entries[i].0@) + seq![':', ' '] + scalar_text(
            entries[i].1,
        ) + seq!['\n'] + obj_block_from(entries, i + 1)
    } else {
        Seq::empty()
    }
}

/// What a spread marker emits for the value its path reached: a block of
/// lines for a sequence or a mapping, nothing for anything else.
pub open spec fn spread_block(v: Json) -> Seq<char> {
    match v {
        Json::Arr(items) => arr_block_from(items@, 0),
        Json::Obj(entries) => obj_block_from(entries@, 0),
        _ => Seq::empty(),
    }
}

/// What replaces the scalar marker at `i`: the resolved value's scalar
/// text, or the marker's own text when the path misses.
pub open spec fn scalar_repl(doc: Json, t: Seq<char>, i: int) -> Seq<char> {
    match resolve_spec(doc, scalar_path(t, i)) {
        Some(v) => scalar_text(v),
        None => t.subrange(i, scalar_end(t, i)),
    }
}

/// What replaces the spread marker at `i`: the resolved value's block, or
/// the marker's own text when the path misses.
pub open spec fn spread_repl(doc: Json, t: Seq<char>, i: int) -> Seq<char> {
    match resolve_spec(doc, scalar_path(t, i + 3)) {
        Some(v) => spread_block(v),
        None => t.subrange(i, spread_end(t, i)),
    }
}

/// The first pass over `t[i..]`: spread markers are replaced left to
/// right, everything else is copied through.
pub open spec fn spread_pass_from(doc: Json, t: Seq<char>, i: int) -> Seq<char>
    decreases t.len() - i,
        via spread_pass_dec
{
    if 0 <= i < t.len() {
        if spread_at(t, i) {
            spread_repl(doc, t, i) + spread_pass_from(doc, t, spread_end(t, i))
        } else {
            seq![t[i]] + spread_pass_from(doc, t, i + 1)
        }
    } else {
        Seq::empty()
    }
}

#[via_fn]
proof fn spread_pass_dec(doc: Json, t: Seq<char>, i: int) {
    if 0 <= i < t.len() && spread_at(t, i) {
        lemma_path_run_chars(t, i + 4);
    }
}

/// The second pass over `t[i..]`: scalar markers are replaced left to
/// right, everything else is copied through.
pub open spec fn scalar_pass_from(doc: Json, t: Seq<char>, i: int) -> Seq<char>
    decreases t.len() - i,
        via scalar_pass_dec
{
    if 0 <= i < t.len() {
        if scalar_at(t, i) {
            scalar_repl(doc, t, i) + scalar_pass_from(doc, t, scalar_end(t, i))
        } else {
            seq![t[i]] + scalar_pass_from(doc, t, i + 1)
        }
    } else {
        Seq::empty()
    }
}

#[via_fn]
proof fn scalar_pass_dec(doc: Json, t: Seq<char>, i: int) {
    if 0 <= i < t.len() && scalar_at(t, i) {
        lemma_path_run_chars(t, i + 1);
    }
}

/// The whole rendering of template `t` against `doc`: the spread pass
/// first, then the scalar pass over its result.
pub open spec fn render_spec(doc: Json, t: Seq<char>) -> Seq<char> {
    scalar_pass_from(doc, spread_pass_from(doc, t, 0), 0)
}

/// True when `c` may stand in a marker path.
fn path_char_exec(c: char) -> (r: bool)
    ensures
        r == is_path_char(c),
{
    let n = c as u32;
    (97 <= n && n <= 122) || (65 <= n && n <= 90) || (48 <= n && n <= 57) || c == '_' || c == '.'
}

/// Finds the end of a scalar marker standing at `i`, if one does.
fn scalar_marker_end(t: &Vec<char>, i: usize) -> (r: Option<usize>)
    requires
        i < t@.len(),
    ensures
        match r {
            Some(e) => scalar_at(t@, i as int) && e as int == scalar_end(t@, i as int),
            None => !scalar_at(t@, i as int),
        },
{
    let n = t.len();
    if t[i] != '{' {
        return None;
    }
    let mut j: usize = i + 1;
    while j < n && path_char_exec(t[j])
        invariant
            n == t@.len(),
            i + 1 <= j <= t@.len(),
            forall|k: int| i + 1 <= k < j ==> is_path_char(t@[k]),
        decreases t@.len() - j,
    {
        j = j + 1;
    }
    proof {
        lemma_path_run_exact(t@, i + 1, j as int);
    }
    if j == i + 1 {
        None
    } else if j < t.len() && t[j] == '}' {
        Some(j + 1)
    } else {
        None
    }
}

/// Copies `t[lo..hi]` out as a fresh vector.
fn copy_range(t: &Vec<char>, lo: usize, hi: usize) -> (r: Vec<char>)
    requires
        lo <= hi <= t@.len(),
    ensures
        r@ == t@.subrange(lo as int, hi as int),
{
    let mut r: Vec<char> = Vec::new();
    push_range(&mut r, t, lo, hi);
    r
}

/// Builds the block of lines a spread marker emits for `v`.
fn spread_block_exec(v: &Json) -> (out: Vec<char>)
    ensures
        out@ == spread_block(*v),
{
    let mut out: Vec<char> = Vec::new();
    match v {
        Json::Arr(items) => {
            let mut k: usize = 0;
            while k < items.len()
                invariant
                    *v == Json::Arr(*items),
                    k <= items@.len(),
                    out@ + arr_block_from(items@, k as int) == arr_block_from(items@, 0),
                decreases items@.len() - k,
            {
                let ghost prev = out@;
                out.push('-');
                out.push(' ');
                push_scalar_text(&mut out, &items[k]);
                out.push('\n');
                proof {
                    assert(out@ =~= prev + (seq!['-', ' '] + scalar_text(items@[k as int]) + seq![
                        '\n',
                    ]));
                    assert(out@ + arr_block_from(items@, k + 1) =~= prev + arr_block_from(
                        items@,
                        k as int,
                    ));
                }
                k = k + 1;
            }
            proof {
                assert(out@ + arr_block_from(items@, items@.len() as int) =~= out@);
            }
        },
        Json::Obj(entries) => {
            let mut k: usize = 0;
            while k < entries.len()
                invariant
                    *v == Json::Obj(*entries),
                    k <= entries@.len(),
                    out@ + obj_block_from(entries@, k as int) == obj_block_from(entries@, 0),
                decreases entries@.len() - k,
            {
                let ghost prev = out@;
                out.push('-');
                out.push(' ');
                push_stripped(&mut out, &entries[k].0);
                out.push(':');
                out.push(' ');
                push_scalar_text(&mut out, &entries[k].1);
                out.push('\n');
                proof {
                    assert(out@ =~= prev + (seq!['-', ' '] + crate::text::strip_quotes(
                        entries@[k as int].0@,
                    ) + seq![':', ' '] + scalar_text(entries@[k as int].1) + seq!['\n']));
                    assert(out@ + obj_block_from(entries@, k + 1) =~= prev + obj_block_from(
                        entries@,
                        k as int,
                    ));
                }
                k = k + 1;
            }
            proof {
                assert(out@ + obj_block_from(entries@, entries@.len() as int) =~= out@);
            }
        },
        _ => {},
    }
    out
}

/// Runs the spread pass: every spread marker of `t` is replaced, left to
/// right, and replacements are not rescanned.
fn spread_pass(doc: &Json, t: &Vec<char>) -> (out: Vec<char>)
    ensures
        out@ == spread_pass_from(*doc, t@, 0),
{
    let mut out: Vec<char> = Vec::new();
    let mut i: usize = 0;
    while i < t.len()
        invariant
            i <= t@.len(),
            out@ + spread_pass_from(*doc, t@, i as int) == spread_pass_from(*doc, t@, 0),
        decreases t@.len() - i,
    {
        let mut mend: usize = 0;
        let mut is_spread = false;
        if t[i] == '.' && t.len() - i > 3 && t[i + 1] == '.' && t[i + 2] == '.' {
            match scalar_marker_end(t, i + 3) {
                Some(e) => {
                    mend = e;
                    is_spread = true;
                },
                None => {},
            }
        }
        if is_spread {
            proof {
                assert(spread_at(t@, i as int));
                assert(mend as int == spread_end(t@, i as int));
                lemma_path_run_chars(t@, i + 4);
            }
            let ghost prev = out@;
            let path = copy_range(t, i + 4, mend - 1);
            proof {
                assert(path@ =~= scalar_path(t@, i + 3));
            }
            match resolve_chars(doc, &path) {
                Some(v) => {
                    let block = spread_block_exec(v);
                    push_all(&mut out, &block);
                },
                None => {
                    push_range(&mut out, t, i, mend);
                },
            }
            proof {
                assert(out@ =~= prev + spread_repl(*doc, t@, i as int));
                assert(spread_pass_from(*doc, t@, i as int) == spread_repl(*doc, t@, i as int)
                    + spread_pass_from(*doc, t@, mend as int));
                assert(out@ + spread_pass_from(*doc, t@, mend as int) =~= prev + spread_pass_from(
                    *doc,
                    t@,
                    i as int,
                ));
            }
            i = mend;
        } else {
            proof {
                assert(!spread_at(t@, i as int));
            }
            let ghost prev = out@;
            out.push(t[i]);
            proof {
                assert(out@ + spread_pass_from(*doc, t@, i + 1) =~= prev + spread_pass_from(
                    *doc,
                    t@,
                    i as int,
                ));
            }
            i = i + 1;
        }
    }
    proof {
        assert(out@ + spread_pass_from(*doc, t@, t@.len() as int) =~= out@);
    }
    out
}

/// Runs the scalar pass: every scalar marker of `t` is replaced, left to
/// right.
fn scalar_pass(doc: &Json, t: &Vec<char>) -> (out: Vec<char>)
    ensures
        out@ == scalar_pass_from(*doc, t@, 0),
{
    let mut out: Vec<char> = Vec::new();
    let mut i: usize = 0;
    while i < t.len()
        invariant
            i <= t@.len(),
            out@ + scalar_pass_from(*doc, t@, i as int) == scalar_pass_from(*doc, t@, 0),
        decreases t@.len() - i,
    {
        match scalar_marker_end(t, i) {
            Some(e) => {
                proof {
                    lemma_path_run_chars(t@, i + 1);
                }
                let ghost prev = out@;
                let path = copy_range(t, i + 1, e - 1);
                proof {
                    assert(path@ =~= scalar_path(t@, i as int));
                }
                match resolve_chars(doc, &path) {
                    Some(v) => {
                        push_scalar_text(&mut out, v);
                    },
                    None => {
                        push_range(&mut out, t, i, e);
                    },
                }
                proof {
                    assert(out@ =~= prev + scalar_repl(*doc, t@, i as int));
                    assert(scalar_pass_from(*doc, t@, i as int) == scalar_repl(*doc, t@, i as int)
                        + scalar_pass_from(*doc, t@, e as int));
                    assert(out@ + scalar_pass_from(*doc, t@, e as int) =~= prev + scalar_pass_from(
                        *doc,
                        t@,
                        i as int,
                    ));
                }
                i = e;
            },
            None => {
                let ghost prev = out@;
                out.push(t[i]);
                proof {
                    assert(out@ + scalar_pass_from(*doc, t@, i + 1) =~= prev + scalar_pass_from(
                        *doc,
                        t@,
                        i as int,
                    ));
                }
                i = i + 1;
            },
        }
    }
    proof {
        assert(out@ + scalar_pass_from(*doc, t@, t@.len() as int) =~= out@);
    }
    out
}

/// Renders template `t` against `doc`: the spread pass, then the scalar
/// pass over its result.
pub fn render_chars(doc: &Json, t: &Vec<char>) -> (out: Vec<char>)
    ensures
        out@ == render_spec(*doc, t@),
{
    let first = spread_pass(doc, t);
    scalar_pass(doc, &first)
}

} // verus!

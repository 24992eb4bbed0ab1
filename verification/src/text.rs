use vstd::prelude::*;

use crate::value::Json;

verus! {

/// The hexadecimal digit for `n`, in lower case.
pub open spec fn hex_char(n: int) -> char {
    if n == 0 {
        '0'
    } else if n == 1 {
        '1'
    } else if n == 2 {
        '2'
    } else if n == 3 {
        '3'
    } else if n == 4 {
        '4'
    } else if n == 5 {
        '5'
    } else if n == 6 {
        '6'
    } else if n == 7 {
        '7'
    } else if n == 8 {
        '8'
    } else if n == 9 {
        '9'
    } else if n == 10 {
        'a'
    } else if n == 11 {
        'b'
    } else if n == 12 {
        'c'
    } else if n == 13 {
        'd'
    } else if n == 14 {
        'e'
    } else {
        'f'
    }
}

/// How one character of a string value is written inside quotes: quotes and
/// backslashes get a backslash, the named control characters their short
/// escape, the remaining control characters a `\u00..` escape, and every
/// other character stands for itself.
pub open spec fn esc_char(c: char) -> Seq<char> {
    if c == '"' {
        seq!['\\', '"']
    } else if c == '\\' {
        seq!['\\', '\\']
    } else if c == '\u{8}' {
        seq!['\\', 'b']
    } else if c == '\t' {
        seq!['\\', 't']
    } else if c == '\n' {
        seq!['\\', 'n']
    } else if c == '\u{c}' {
        seq!['\\', 'f']
    } else if c == '\r' {
        seq!['\\', 'r']
    } else if (c as u32) < 32 {
        seq!['\\', 'u', '0', '0', hex_char((c as u32) as int / 16), hex_char((c as u32) as int % 16)]
    } else {
        seq![c]
    }
}

/// The characters of `s` from position `i` on, each escaped.
pub open spec fn esc_from(s: Seq<char>, i: int) -> Seq<char>
    decreases s.len() - i,
{
    if 0 <= i < s.len() {
        esc_char(s[i]) + esc_from(s, i + 1)
    } else {
        Seq::empty()
    }
}

/// The canonical compact text of a value, in the document syntax itself:
/// `null`, `true`/`false`, the number's own text, a quoted string, or a
/// bracketed list of elements / key-value pairs.
pub open spec fn json_text(v: Json) -> Seq<char>
    decreases v, 0int,
{
    match v {
        Json::Null => seq!['n', 'u', 'l', 'l'],
        Json::Bool(b) => if b {
            seq!['t', 'r', 'u', 'e']
        } else {
            seq!['f', 'a', 'l', 's', 'e']
        },
        Json::Num(s) => s@,
        Json::Str(s) => seq!['"'] + esc_from(s@, 0) + seq!['"'],
        Json::Arr(a) => seq!['['] + arr_items_text(a@, 0) + seq![']'],
        Json::Obj(o) => seq!['{'] + obj_items_text(o@, 0) + seq!['}'],
    }
}

/// The elements of a sequence from position `i` on, rendered and joined
/// with commas.
pub open spec fn arr_items_text(items: Seq<Json>, i: int) -> Seq<char>
    decreases items, items.len() - i,
{
    if 0 <= i < items.len() {
        if i + 1 < items.len() {
            json_text(items[i]) + seq![','] + arr_items_text(items, i + 1)
        } else {
            json_text(items[i])
        }
    } else {
        Seq::empty()
    }
}

/// The entries of a mapping from position `i` on, rendered as quoted key,
/// colon, value, joined with commas.
pub open spec fn obj_items_text(entries: Seq<(Vec<char>, Json)>, i: int) -> Seq<char>
    decreases entries, entries.len() - i,
{
    if 0 <= i < entries.len() {
        let pair = seq!['"'] + esc_from(entries[i].0@, 0) + seq!['"', ':'] + json_text(entries[i].1);
        if i + 1 < entries.len() {
            pair + seq![','] + obj_items_text(entries, i + 1)
        } else {
            pair
        }
    } else {
        Seq::empty()
    }
}

/// The characters of `s` from position `i` on, with every double quote
/// dropped.
pub open spec fn strip_from(s: Seq<char>, i: int) -> Seq<char>
    decreases s.len() - i,
{
    if 0 <= i < s.len() {
        if s[i] == '"' {
            strip_from(s, i + 1)
        } else {
            seq![s[i]] + strip_from(s, i + 1)
        }
    } else {
        Seq::empty()
    }
}

/// `s` with every double quote dropped.
pub open spec fn strip_quotes(s: Seq<char>) -> Seq<char> {
    strip_from(s, 0)
}

/// A value rendered in place of a scalar marker: its canonical text with
/// every double quote dropped.
pub open spec fn scalar_text(v: Json) -> Seq<char> {
    strip_quotes(json_text(v))
}

/// Appends every character of `s` to `out`.
pub fn push_all(out: &mut Vec<char>, s: &Vec<char>)
    ensures
        final(out)@ == old(out)@ + s@,
{
    let mut i: usize = 0;
    while i < s.len()
        invariant
            i <= s@.len(),
            out@ == old(out)@ + s@.subrange(0, i as int),
        decreases s@.len() - i,
    {
        out.push(s[i]);
        proof {
            assert(s@.subrange(0, i + 1 as int) =~= s@.subrange(0, i as int).push(s@[i as int]));
        }
        i = i + 1;
    }
    proof {
        assert(s@.subrange(0, s@.len() as int) =~= s@);
    }
}

/// Appends the characters `s[lo..hi]` to `out`.
pub fn push_range(out: &mut Vec<char>, s: &Vec<char>, lo: usize, hi: usize)
    requires
        lo <= hi <= s@.len(),
    ensures
        final(out)@ == old(out)@ + s@.subrange(lo as int, hi as int),
{
    let mut i: usize = lo;
    while i < hi
        invariant
            lo <= i <= hi <= s@.len(),
            out@ == old(out)@ + s@.subrange(lo as int, i as int),
        decreases hi - i,
    {
        out.push(s[i]);
        proof {
            assert(s@.subrange(lo as int, i + 1 as int) =~= s@.subrange(lo as int, i as int).push(
                s@[i as int],
            ));
        }
        i = i + 1;
    }
}

/// Appends `esc_char(c)` to `out`.
pub fn push_esc_char(out: &mut Vec<char>, c: char)
    ensures
        final(out)@ == old(out)@ + esc_char(c),
{
    if c == '"' {
        out.push('\\');
        out.push('"');
    } else if c == '\\' {
        out.push('\\');
        out.push('\\');
    } else if c == '\u{8}' {
        out.push('\\');
        out.push('b');
    } else if c == '\t' {
        out.push('\\');
        out.push('t');
    } else if c == '\n' {
        out.push('\\');
        out.push('n');
    } else if c == '\u{c}' {
        out.push('\\');
        out.push('f');
    } else if c == '\r' {
        out.push('\\');
        out.push('r');
    } else if (c as u32) < 32 {
        out.push('\\');
        out.push('u');
        out.push('0');
        out.push('0');
        out.push(hex_char_exec((c as u32) / 16));
        out.push(hex_char_exec((c as u32) % 16));
    } else {
        out.push(c);
    }
    proof {
        assert(final(out)@ =~= old(out)@ + esc_char(c));
    }
}

/// The hexadecimal digit for `n`, in lower case.
pub fn hex_char_exec(n: u32) -> (c: char)
    requires
        n < 16,
    ensures
        c == hex_char(n as int),
{
    if n == 0 {
        '0'
    } else if n == 1 {
        '1'
    } else if n == 2 {
        '2'
    } else if n == 3 {
        '3'
    } else if n == 4 {
        '4'
    } else if n == 5 {
        '5'
    } else if n == 6 {
        '6'
    } else if n == 7 {
        '7'
    } else if n == 8 {
        '8'
    } else if n == 9 {
        '9'
    } else if n == 10 {
        'a'
    } else if n == 11 {
        'b'
    } else if n == 12 {
        'c'
    } else if n == 13 {
        'd'
    } else if n == 14 {
        'e'
    } else {
        'f'
    }
}

/// Appends the escaped form of every character of `s` to `out`.
pub fn push_escaped(out: &mut Vec<char>, s: &Vec<char>)
    ensures
        final(out)@ == old(out)@ + esc_from(s@, 0),
{
    let mut i: usize = 0;
    while i < s.len()
        invariant
            i <= s@.len(),
            out@ + esc_from(s@, i as int) == old(out)@ + esc_from(s@, 0),
        decreases s@.len() - i,
    {
        let ghost prev = out@;
        push_esc_char(out, s[i]);
        proof {
            assert(prev + esc_char(s@[i as int]) + esc_from(s@, i + 1) =~= prev + (esc_char(
                s@[i as int],
            ) + esc_from(s@, i + 1)));
        }
        i = i + 1;
    }
}

/// Appends `s` to `out` with every double quote dropped.
pub fn push_stripped(out: &mut Vec<char>, s: &Vec<char>)
    ensures
        final(out)@ == old(out)@ + strip_quotes(s@),
{
    let mut i: usize = 0;
    while i < s.len()
        invariant
            i <= s@.len(),
            out@ + strip_from(s@, i as int) == old(out)@ + strip_from(s@, 0),
        decreases s@.len() - i,
    {
        if s[i] != '"' {
            let ghost prev = out@;
            out.push(s[i]);
            proof {
                assert(prev + seq![s@[i as int]] + strip_from(s@, i + 1) =~= prev + (seq![
                    s@[i as int],
                ] + strip_from(s@, i + 1)));
            }
        }
        i = i + 1;
    }
}

/// Writes the canonical compact text of `v` at the end of `out`.
pub fn push_json_text(out: &mut Vec<char>, v: &Json)
    ensures
        final(out)@ == old(out)@ + json_text(*v),
    decreases *v,
{
    match v {
        Json::Null => {
            out.push('n');
            out.push('u');
            out.push('l');
            out.push('l');
            proof {
                assert(final(out)@ =~= old(out)@ + json_text(*v));
            }
        },
        Json::Bool(b) => {
            if *b {
                out.push('t');
                out.push('r');
                out.push('u');
                out.push('e');
            } else {
                out.push('f');
                out.push('a');
                out.push('l');
                out.push('s');
                out.push('e');
            }
            proof {
                assert(final(out)@ =~= old(out)@ + json_text(*v));
            }
        },
        Json::Num(s) => {
            push_all(out, s);
        },
        Json::Str(s) => {
            out.push('"');
            push_escaped(out, s);
            out.push('"');
            proof {
                assert(final(out)@ =~= old(out)@ + json_text(*v));
            }
        },
        Json::Arr(a) => {
            out.push('[');
            let ghost base = out@;
            let mut k: usize = 0;
            while k < a.len()
                invariant
                    *v == Json::Arr(*a),
                    k <= a@.len(),
                    out@ + arr_items_text(a@, k as int) == base + arr_items_text(a@, 0),
                decreases a@.len() - k,
            {
                let ghost prev = out@;
                proof {
                    assert(*v == Json::Arr(*a));
                    assert(decreases_to!(*v => v->Arr_0));
                    assert(v->Arr_0 == *a);
                    assert(decreases_to!(*a => a@));
                    assert(decreases_to!(a@ => a@[k as int]));
                    assert(decreases_to!(*v => a@[k as int]));
                }
                push_json_text(out, &a[k]);
                if k + 1 < a.len() {
                    out.push(',');
                    proof {
                        assert(prev + json_text(a@[k as int]) + seq![','] + arr_items_text(
                            a@,
                            k + 1,
                        ) =~= prev + (json_text(a@[k as int]) + seq![','] + arr_items_text(
                            a@,
                            k + 1,
                        )));
                    }
                } else {
                    proof {
                        assert(prev + json_text(a@[k as int]) + arr_items_text(a@, k + 1) =~= prev
                            + json_text(a@[k as int]));
                        assert(arr_items_text(a@, k as int) == json_text(a@[k as int]));
                    }
                }
                k = k + 1;
            }
            out.push(']');
            proof {
                assert(final(out)@ =~= old(out)@ + json_text(*v));
            }
        },
        Json::Obj(o) => {
            out.push('{');
            let ghost base = out@;
            let mut k: usize = 0;
            while k < o.len()
                invariant
                    *v == Json::Obj(*o),
                    k <= o@.len(),
                    out@ + obj_items_text(o@, k as int) == base + obj_items_text(o@, 0),
                decreases o@.len() - k,
            {
                let ghost prev = out@;
                out.push('"');
                push_escaped(out, &o[k].0);
                out.push('"');
                out.push(':');
                proof {
                    assert(*v == Json::Obj(*o));
                    assert(decreases_to!(*v => v->Obj_0));
                    assert(v->Obj_0 == *o);
                    assert(decreases_to!(*o => o@));
                    assert(decreases_to!(o@ => o@[k as int]));
                    assert(decreases_to!(o@[k as int] => o@[k as int].1));
                    assert(decreases_to!(*v => o@[k as int].1));
                }
                push_json_text(out, &o[k].1);
                proof {
                    let pair = seq!['"'] + esc_from(o@[k as int].0@, 0) + seq!['"', ':']
                        + json_text(o@[k as int].1);
                    assert(out@ =~= prev + pair);
                }
                if k + 1 < o.len() {
                    out.push(',');
                    proof {
                        let pair = seq!['"'] + esc_from(o@[k as int].0@, 0) + seq!['"', ':']
                            + json_text(o@[k as int].1);
                        assert(out@ + obj_items_text(o@, k + 1) =~= prev + (pair + seq![',']
                            + obj_items_text(o@, k + 1)));
                    }
                } else {
                    proof {
                        let pair = seq!['"'] + esc_from(o@[k as int].0@, 0) + seq!['"', ':']
                            + json_text(o@[k as int].1);
                        assert(out@ + obj_items_text(o@, k + 1) =~= prev + pair);
                        assert(obj_items_text(o@, k as int) == pair);
                    }
                }
                k = k + 1;
            }
            out.push('}');
            proof {
                assert(final(out)@ =~= old(out)@ + json_text(*v));
            }
        },
    }
}

/// Appends the scalar rendering of `v` (its canonical text, quotes dropped)
/// to `out`.
pub fn push_scalar_text(out: &mut Vec<char>, v: &Json)
    ensures
        final(out)@ == old(out)@ + scalar_text(*v),
{
    let mut t: Vec<char> = Vec::new();
    push_json_text(&mut t, v);
    push_stripped(out, &t);
}

} // verus!

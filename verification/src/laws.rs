use vstd::prelude::*;

use crate::render::is_path_char;
use crate::render::render_spec;
use crate::render::scalar_at;
use crate::render::scalar_end;
use crate::render::scalar_path;
use crate::render::scalar_pass_from;
use crate::render::scalar_repl;
use crate::render::spread_at;
use crate::render::spread_end;
use crate::render::spread_pass_from;
use crate::render::spread_repl;
use crate::render::lemma_path_run_chars;
use crate::render::lemma_path_run_exact;
use crate::resolve::resolve_spec;
use crate::value::Json;

verus! {

/// `n` stands at position `q` of `h`.
pub open spec fn contains_at(h: Seq<char>, n: Seq<char>, q: int) -> bool {
    &&& 0 <= q
    &&& q + n.len() <= h.len()
    &&& h.subrange(q, q + n.len()) == n
}

/// `n` stands somewhere in `h`.
pub open spec fn contains_seq(h: Seq<char>, n: Seq<char>) -> bool {
    exists|q: int| contains_at(h, n, q)
}

proof fn lemma_contains_shift(a: Seq<char>, b: Seq<char>, n: Seq<char>, q: int)
    requires
        contains_at(b, n, q),
    ensures
        contains_at(a + b, n, a.len() + q),
{
    assert((a + b).subrange(a.len() + q, a.len() + q + n.len()) =~= b.subrange(q, q + n.len()));
}

proof fn lemma_contains_front(a: Seq<char>, b: Seq<char>, n: Seq<char>, q: int)
    requires
        contains_at(a, n, q),
    ensures
        contains_at(a + b, n, q),
{
    assert((a + b).subrange(q, q + n.len()) =~= a.subrange(q, q + n.len()));
}

/// The shape of a scalar marker's span: an opening brace, path characters,
/// a closing brace.
proof fn lemma_scalar_span(t: Seq<char>, i: int)
    requires
        scalar_at(t, i),
    ensures
        i + 3 <= scalar_end(t, i) <= t.len(),
        t[i] == '{',
        t[scalar_end(t, i) - 1] == '}',
        forall|k: int| i < k < scalar_end(t, i) - 1 ==> is_path_char(t[k]),
{
    lemma_path_run_chars(t, i + 1);
}

/// No spread marker starts inside a scalar marker's span.
proof fn lemma_no_spread_in_scalar(t: Seq<char>, i: int, k: int)
    requires
        scalar_at(t, i),
        i <= k < scalar_end(t, i),
    ensures
        !spread_at(t, k),
{
    lemma_scalar_span(t, i);
    if spread_at(t, k) {
        let e = scalar_end(t, i);
        assert(t[k] == '.');
        assert(t[k + 3] == '{');
        if k + 3 < e {
            if k + 3 == e - 1 {
                assert(t[k + 3] == '}');
            } else {
                assert(is_path_char(t[k + 3]));
            }
            assert(false);
        } else {
            assert(k <= e - 1 <= k + 2);
            assert(t[e - 1] == '.');
            assert(false);
        }
    }
}

/// Two scalar markers never overlap: an earlier one ends before a later
/// one starts.
proof fn lemma_scalar_no_overlap(t: Seq<char>, j: int, i: int)
    requires
        scalar_at(t, j),
        scalar_at(t, i),
        j < i,
    ensures
        scalar_end(t, j) <= i,
{
    lemma_scalar_span(t, j);
    if i < scalar_end(t, j) {
        if i == scalar_end(t, j) - 1 {
            assert(t[i] == '}');
        } else {
            assert(is_path_char(t[i]));
        }
        assert(false);
    }
}

/// A spread marker ends before any scalar marker other than its own inner
/// one that starts later.
proof fn lemma_spread_scalar_no_overlap(t: Seq<char>, j: int, i: int)
    requires
        spread_at(t, j),
        scalar_at(t, i),
        j < i,
        i != j + 3,
    ensures
        spread_end(t, j) <= i,
{
    lemma_scalar_span(t, j + 3);
    if i < spread_end(t, j) {
        let e = spread_end(t, j);
        assert(t[i] == '{');
        if i < j + 3 {
            assert(t[i] == '.');
        } else {
            if i == e - 1 {
                assert(t[i] == '}');
            } else {
                assert(is_path_char(t[i]));
            }
        }
        assert(false);
    }
}

/// Two spread markers never overlap.
proof fn lemma_spread_no_overlap(t: Seq<char>, j: int, i: int)
    requires
        spread_at(t, j),
        spread_at(t, i),
        j < i,
    ensures
        spread_end(t, j) <= i,
{
    lemma_scalar_span(t, j + 3);
    if i < spread_end(t, j) {
        let e = spread_end(t, j);
        assert(t[i + 3] == '{');
        if i + 3 < e {
            if i + 3 == e - 1 {
                assert(t[i + 3] == '}');
            } else {
                assert(is_path_char(t[i + 3]));
            }
            assert(false);
        } else {
            assert(i <= e - 1 <= i + 2);
            assert(t[e - 1] == '.');
            assert(false);
        }
    }
}

/// A scalar marker ends before any spread marker that starts later.
proof fn lemma_scalar_spread_no_overlap(t: Seq<char>, j: int, q: int)
    requires
        scalar_at(t, j),
        spread_at(t, q),
        j < q,
    ensures
        scalar_end(t, j) <= q,
{
    lemma_scalar_span(t, j);
    if q < scalar_end(t, j) {
        let e = scalar_end(t, j);
        if e - 1 <= q + 2 {
            assert(t[e - 1] == '.');
        } else {
            if q + 3 == e - 1 {
                assert(t[q + 3] == '}');
            } else {
                assert(is_path_char(t[q + 3]));
            }
            assert(t[q + 3] == '{');
        }
        assert(false);
    }
}

/// Where no spread marker starts, the spread pass copies the text through.
proof fn lemma_spread_pass_verbatim(doc: Json, t: Seq<char>, a: int, b: int)
    requires
        0 <= a <= b <= t.len(),
        forall|k: int| a <= k < b ==> !spread_at(t, k),
    ensures
        spread_pass_from(doc, t, a) == t.subrange(a, b) + spread_pass_from(doc, t, b),
    decreases b - a,
{
    if a == b {
        assert(t.subrange(a, b) + spread_pass_from(doc, t, b) =~= spread_pass_from(doc, t, a));
    } else {
        lemma_spread_pass_verbatim(doc, t, a + 1, b);
        assert(seq![t[a]] + (t.subrange(a + 1, b) + spread_pass_from(doc, t, b)) =~= t.subrange(
            a,
            b,
        ) + spread_pass_from(doc, t, b));
    }
}

/// Where no scalar marker starts, the scalar pass copies the text through.
proof fn lemma_scalar_pass_verbatim(doc: Json, t: Seq<char>, a: int, b: int)
    requires
        0 <= a <= b <= t.len(),
        forall|k: int| a <= k < b ==> !scalar_at(t, k),
    ensures
        scalar_pass_from(doc, t, a) == t.subrange(a, b) + scalar_pass_from(doc, t, b),
    decreases b - a,
{
    if a == b {
        assert(t.subrange(a, b) + scalar_pass_from(doc, t, b) =~= scalar_pass_from(doc, t, a));
    } else {
        lemma_scalar_pass_verbatim(doc, t, a + 1, b);
        assert(seq![t[a]] + (t.subrange(a + 1, b) + scalar_pass_from(doc, t, b)) =~= t.subrange(
            a,
            b,
        ) + scalar_pass_from(doc, t, b));
    }
}

/// The spread pass, run from `j`, keeps the text of an unresolved scalar
/// marker standing at `i` at or after `j`.
proof fn lemma_spread_pass_keeps_scalar(doc: Json, t: Seq<char>, i: int, j: int)
    requires
        scalar_at(t, i),
        resolve_spec(doc, scalar_path(t, i)) is None,
        0 <= j <= i,
    ensures
        contains_seq(spread_pass_from(doc, t, j), t.subrange(i, scalar_end(t, i))),
    decreases i - j,
{
    let marker = t.subrange(i, scalar_end(t, i));
    let e = scalar_end(t, i);
    lemma_scalar_span(t, i);
    if j == i {
        assert forall|k: int| i <= k < e implies !spread_at(t, k) by {
            lemma_no_spread_in_scalar(t, i, k);
        }
        lemma_spread_pass_verbatim(doc, t, i, e);
        assert(marker.subrange(0, marker.len() as int) =~= marker);
        lemma_contains_front(marker, spread_pass_from(doc, t, e), marker, 0);
    } else if spread_at(t, j) {
        if j + 3 == i {
            let repl = spread_repl(doc, t, j);
            assert(scalar_path(t, j + 3) == scalar_path(t, i));
            assert(repl == t.subrange(j, spread_end(t, j)));
            assert(spread_end(t, j) == e);
            assert(spread_pass_from(doc, t, j) == repl + spread_pass_from(doc, t, e));
            assert(repl.subrange(3, 3 + marker.len() as int) =~= marker);
            assert(contains_at(repl, marker, 3));
            lemma_contains_front(repl, spread_pass_from(doc, t, e), marker, 3);
        } else {
            lemma_spread_scalar_no_overlap(t, j, i);
            let ej = spread_end(t, j);
            lemma_scalar_span(t, j + 3);
            assert(j < ej <= i);
            lemma_spread_pass_keeps_scalar(doc, t, i, ej);
            let q = choose|q: int| contains_at(spread_pass_from(doc, t, ej), marker, q);
            lemma_contains_shift(spread_repl(doc, t, j), spread_pass_from(doc, t, ej), marker, q);
            assert(spread_pass_from(doc, t, j) == spread_repl(doc, t, j) + spread_pass_from(
                doc,
                t,
                ej,
            ));
        }
    } else {
        lemma_spread_pass_keeps_scalar(doc, t, i, j + 1);
        let rest = spread_pass_from(doc, t, j + 1);
        let q = choose|q: int| contains_at(rest, marker, q);
        lemma_contains_shift(seq![t[j]], spread_pass_from(doc, t, j + 1), marker, q);
        assert(spread_pass_from(doc, t, j) == seq![t[j]] + spread_pass_from(doc, t, j + 1));
    }
}

/// The scalar pass, run from `j`, keeps the text of an unresolved scalar
/// marker standing at `i` at or after `j`.
proof fn lemma_scalar_pass_keeps_scalar(doc: Json, t: Seq<char>, i: int, j: int)
    requires
        scalar_at(t, i),
        resolve_spec(doc, scalar_path(t, i)) is None,
        0 <= j <= i,
    ensures
        contains_seq(scalar_pass_from(doc, t, j), t.subrange(i, scalar_end(t, i))),
    decreases i - j,
{
    let marker = t.subrange(i, scalar_end(t, i));
    let e = scalar_end(t, i);
    lemma_scalar_span(t, i);
    if j == i {
        assert(scalar_repl(doc, t, i) == marker);
        assert(scalar_pass_from(doc, t, i) == marker + scalar_pass_from(doc, t, e));
        assert(marker.subrange(0, marker.len() as int) =~= marker);
        lemma_contains_front(marker, scalar_pass_from(doc, t, e), marker, 0);
    } else if scalar_at(t, j) {
        lemma_scalar_no_overlap(t, j, i);
        let ej = scalar_end(t, j);
        lemma_scalar_span(t, j);
        lemma_scalar_pass_keeps_scalar(doc, t, i, ej);
        let rest = scalar_pass_from(doc, t, ej);
        let q = choose|q: int| contains_at(rest, marker, q);
        lemma_contains_shift(scalar_repl(doc, t, j), scalar_pass_from(doc, t, ej), marker, q);
        assert(scalar_pass_from(doc, t, j) == scalar_repl(doc, t, j) + scalar_pass_from(
            doc,
            t,
            ej,
        ));
    } else {
        lemma_scalar_pass_keeps_scalar(doc, t, i, j + 1);
        let rest = scalar_pass_from(doc, t, j + 1);
        let q = choose|q: int| contains_at(rest, marker, q);
        lemma_contains_shift(seq![t[j]], scalar_pass_from(doc, t, j + 1), marker, q);
        assert(scalar_pass_from(doc, t, j) == seq![t[j]] + scalar_pass_from(doc, t, j + 1));
    }
}

/// An occurrence of a scalar marker's text is itself a scalar marker with
/// the same path.
proof fn lemma_marker_text_is_marker(t: Seq<char>, i: int, s: Seq<char>, q: int)
    requires
        scalar_at(t, i),
        contains_at(s, t.subrange(i, scalar_end(t, i)), q),
    ensures
        scalar_at(s, q),
        scalar_end(s, q) == q + scalar_end(t, i) - i,
        scalar_path(s, q) == scalar_path(t, i),
{
    let marker = t.subrange(i, scalar_end(t, i));
    let n = crate::render::path_run(t, i + 1);
    lemma_scalar_span(t, i);
    assert(s[q] == marker[0]);
    assert forall|k: int| q + 1 <= k < q + 1 + n implies is_path_char(s[k]) by {
        assert(s[k] == marker[k - q]);
        assert(is_path_char(t[i + (k - q)]));
    }
    assert(s[q + 1 + n] == marker[n + 1]);
    assert(s[q + 1 + n] == '}');
    assert(!is_path_char('}'));
    lemma_path_run_exact(s, q + 1, q + 1 + n);
    let lhs = scalar_path(s, q);
    let rhs = scalar_path(t, i);
    assert forall|m: int| 0 <= m < lhs.len() implies #[trigger] lhs[m] == rhs[m] by {
        assert(s[q + 1 + m] == marker[1 + m]);
    }
    assert(lhs =~= rhs);
}

/// The first pass keeps the text of an unresolved spread marker standing
/// at `i` at or after `j`.
proof fn lemma_spread_pass_keeps_spread(doc: Json, t: Seq<char>, i: int, j: int)
    requires
        spread_at(t, i),
        resolve_spec(doc, scalar_path(t, i + 3)) is None,
        0 <= j <= i,
    ensures
        contains_seq(spread_pass_from(doc, t, j), t.subrange(i, spread_end(t, i))),
    decreases i - j,
{
    let marker = t.subrange(i, spread_end(t, i));
    let e = spread_end(t, i);
    lemma_scalar_span(t, i + 3);
    if j == i {
        assert(spread_repl(doc, t, i) == marker);
        assert(spread_pass_from(doc, t, i) == marker + spread_pass_from(doc, t, e));
        assert(marker.subrange(0, marker.len() as int) =~= marker);
        lemma_contains_front(marker, spread_pass_from(doc, t, e), marker, 0);
    } else if spread_at(t, j) {
        lemma_spread_no_overlap(t, j, i);
        let ej = spread_end(t, j);
        lemma_scalar_span(t, j + 3);
        lemma_spread_pass_keeps_spread(doc, t, i, ej);
        let rest = spread_pass_from(doc, t, ej);
        let q = choose|q: int| contains_at(rest, marker, q);
        lemma_contains_shift(spread_repl(doc, t, j), spread_pass_from(doc, t, ej), marker, q);
        assert(spread_pass_from(doc, t, j) == spread_repl(doc, t, j) + spread_pass_from(
            doc,
            t,
            ej,
        ));
    } else {
        lemma_spread_pass_keeps_spread(doc, t, i, j + 1);
        let rest = spread_pass_from(doc, t, j + 1);
        let q = choose|q: int| contains_at(rest, marker, q);
        lemma_contains_shift(seq![t[j]], spread_pass_from(doc, t, j + 1), marker, q);
        assert(spread_pass_from(doc, t, j) == seq![t[j]] + spread_pass_from(doc, t, j + 1));
    }
}

/// The scalar pass, run from `j`, keeps the text of an unresolved spread
/// marker standing at `i` at or after `j`.
proof fn lemma_scalar_pass_keeps_spread(doc: Json, t: Seq<char>, i: int, j: int)
    requires
        spread_at(t, i),
        resolve_spec(doc, scalar_path(t, i + 3)) is None,
        0 <= j <= i,
    ensures
        contains_seq(scalar_pass_from(doc, t, j), t.subrange(i, spread_end(t, i))),
    decreases i - j,
{
    let marker = t.subrange(i, spread_end(t, i));
    let e = spread_end(t, i);
    lemma_scalar_span(t, i + 3);
    if j == i {
        assert forall|k: int| i <= k < i + 3 implies !scalar_at(t, k) by {
            assert(t[k] == '.');
        }
        lemma_scalar_pass_verbatim(doc, t, i, i + 3);
        assert(scalar_repl(doc, t, i + 3) == t.subrange(i + 3, e));
        assert(scalar_pass_from(doc, t, i + 3) == t.subrange(i + 3, e) + scalar_pass_from(
            doc,
            t,
            e,
        ));
        assert(scalar_pass_from(doc, t, i) == t.subrange(i, i + 3) + (t.subrange(i + 3, e)
            + scalar_pass_from(doc, t, e)));
        assert(scalar_pass_from(doc, t, i).subrange(0, marker.len() as int) =~= marker);
        assert(contains_at(scalar_pass_from(doc, t, i), marker, 0));
    } else if scalar_at(t, j) {
        lemma_scalar_spread_no_overlap(t, j, i);
        let ej = scalar_end(t, j);
        lemma_scalar_span(t, j);
        lemma_scalar_pass_keeps_spread(doc, t, i, ej);
        let rest = scalar_pass_from(doc, t, ej);
        let q = choose|q: int| contains_at(rest, marker, q);
        lemma_contains_shift(scalar_repl(doc, t, j), scalar_pass_from(doc, t, ej), marker, q);
        assert(scalar_pass_from(doc, t, j) == scalar_repl(doc, t, j) + scalar_pass_from(
            doc,
            t,
            ej,
        ));
    } else {
        lemma_scalar_pass_keeps_spread(doc, t, i, j + 1);
        let rest = scalar_pass_from(doc, t, j + 1);
        let q = choose|q: int| contains_at(rest, marker, q);
        lemma_contains_shift(seq![t[j]], scalar_pass_from(doc, t, j + 1), marker, q);
        assert(scalar_pass_from(doc, t, j) == seq![t[j]] + scalar_pass_from(doc, t, j + 1));
    }
}

/// An occurrence of a spread marker's text is itself a spread marker with
/// the same path.
proof fn lemma_spread_text_is_marker(t: Seq<char>, i: int, s: Seq<char>, q: int)
    requires
        spread_at(t, i),
        contains_at(s, t.subrange(i, spread_end(t, i)), q),
    ensures
        spread_at(s, q),
        spread_end(s, q) == q + spread_end(t, i) - i,
        scalar_path(s, q + 3) == scalar_path(t, i + 3),
{
    let marker = t.subrange(i, spread_end(t, i));
    lemma_scalar_span(t, i + 3);
    assert(s[q] == marker[0]);
    assert(s[q + 1] == marker[1]);
    assert(s[q + 2] == marker[2]);
    let lhs = s.subrange(q + 3, q + marker.len() as int);
    let rhs = t.subrange(i + 3, spread_end(t, i));
    assert forall|m: int| 0 <= m < lhs.len() implies #[trigger] lhs[m] == rhs[m] by {
        assert(marker[3 + m] == s[q + 3 + m]);
    }
    assert(lhs =~= rhs);
    assert(contains_at(s, t.subrange(i + 3, scalar_end(t, i + 3)), q + 3));
    lemma_marker_text_is_marker(t, i + 3, s, q + 3);
}

/// Unresolved scalar markers are left alone: when the path of a scalar
/// marker misses the document, the rendered text still holds the marker's
/// own text, character for character.
pub proof fn lemma_unresolved_scalar_marker_kept(doc: Json, t: Seq<char>, i: int)
    requires
        scalar_at(t, i),
        resolve_spec(doc, scalar_path(t, i)) is None,
    ensures
        contains_seq(render_spec(doc, t), t.subrange(i, scalar_end(t, i))),
{
    let marker = t.subrange(i, scalar_end(t, i));
    let s = spread_pass_from(doc, t, 0);
    lemma_spread_pass_keeps_scalar(doc, t, i, 0);
    let q = choose|q: int| contains_at(s, marker, q);
    lemma_marker_text_is_marker(t, i, s, q);
    lemma_scalar_pass_keeps_scalar(doc, s, q, 0);
    let res = scalar_pass_from(doc, s, 0);
    let inner = s.subrange(q, scalar_end(s, q));
    let w = choose|w: int| contains_at(res, inner, w);
    assert(s.subrange(q, scalar_end(s, q)) =~= marker);
    assert(contains_at(render_spec(doc, t), marker, w));
}

/// Unresolved spread markers are left alone: when the path of a spread
/// marker misses the document, the rendered text still holds the marker's
/// own text, dots, braces and all.
pub proof fn lemma_unresolved_spread_marker_kept(doc: Json, t: Seq<char>, i: int)
    requires
        spread_at(t, i),
        resolve_spec(doc, scalar_path(t, i + 3)) is None,
    ensures
        contains_seq(render_spec(doc, t), t.subrange(i, spread_end(t, i))),
{
    let marker = t.subrange(i, spread_end(t, i));
    let s = spread_pass_from(doc, t, 0);
    lemma_spread_pass_keeps_spread(doc, t, i, 0);
    let q = choose|q: int| contains_at(s, marker, q);
    lemma_spread_text_is_marker(t, i, s, q);
    lemma_scalar_pass_keeps_spread(doc, s, q, 0);
    let res = scalar_pass_from(doc, s, 0);
    let inner = s.subrange(q, spread_end(s, q));
    let w = choose|w: int| contains_at(res, inner, w);
    assert(s.subrange(q, spread_end(s, q)) =~= marker);
    assert(contains_at(render_spec(doc, t), marker, w));
}

/// The law above, said of the public contract: when a render call
/// succeeds and a scalar marker of the template has a path that misses
/// the decoded document, the output still holds that marker's text.
pub proof fn lemma_output_keeps_unresolved_scalar(
    doc: Json,
    doc_text: Seq<char>,
    template: Seq<char>,
    out: Seq<char>,
    i: int,
)
    requires
        crate::decode::json_parse(doc_text) == Some(doc),
        crate::render_result_spec(doc_text, template) == Some(out),
        scalar_at(template, i),
        resolve_spec(doc, scalar_path(template, i)) is None,
    ensures
        contains_seq(out, template.subrange(i, scalar_end(template, i))),
{
    lemma_unresolved_scalar_marker_kept(doc, template, i);
}

/// The same, for a spread marker whose path misses.
pub proof fn lemma_output_keeps_unresolved_spread(
    doc: Json,
    doc_text: Seq<char>,
    template: Seq<char>,
    out: Seq<char>,
    i: int,
)
    requires
        crate::decode::json_parse(doc_text) == Some(doc),
        crate::render_result_spec(doc_text, template) == Some(out),
        spread_at(template, i),
        resolve_spec(doc, scalar_path(template, i + 3)) is None,
    ensures
        contains_seq(out, template.subrange(i, spread_end(template, i))),
{
    lemma_unresolved_spread_marker_kept(doc, template, i);
}

} // verus!

use vstd::prelude::*;
use crate::parser::{find_key, items_at, members_at, upsert, value_at};
use crate::scanner::{
    TokenView, is_digit, is_number_char, is_number_text, is_word_char, number_run, prepend,
    scan_from, scan_text, string_run, word_run,
};
use crate::value::{Json, keys_distinct, well_formed};

verus! {

/// The tokens that write `v` out: entries and items separated by commas.
pub open spec fn render(v: Json) -> Seq<TokenView>
    decreases v,
{
    match v {
        Json::Str(s) => seq![TokenView::StringLiteral(s)],
        Json::Num(n) => seq![TokenView::Number(n)],
        Json::Bool(b) => seq![if b { TokenView::True } else { TokenView::False }],
        Json::Null => seq![TokenView::Null],
        Json::Object(es) => if es.len() == 0 {
            seq![TokenView::OpenBrace, TokenView::ClosingBrace]
        } else {
            seq![TokenView::OpenBrace] + render_entries(es)
        },
        Json::Array(xs) => if xs.len() == 0 {
            seq![TokenView::OpenBracket, TokenView::ClosingBracket]
        } else {
            seq![TokenView::OpenBracket] + render_items(xs)
        },
    }
}

/// The entries of a non-empty object and its closing brace.
pub open spec fn render_entries(es: Seq<(Seq<char>, Json)>) -> Seq<TokenView>
    decreases es,
{
    if es.len() == 0 {
        seq![TokenView::ClosingBrace]
    } else {
        let head = seq![TokenView::StringLiteral(es[0].0), TokenView::Colon] + render(es[0].1);
        if es.len() == 1 {
            head + seq![TokenView::ClosingBrace]
        } else {
            head + seq![TokenView::Comma] + render_entries(es.drop_first())
        }
    }
}

/// The items of a non-empty array and its closing bracket.
pub open spec fn render_items(xs: Seq<Json>) -> Seq<TokenView>
    decreases xs,
{
    if xs.len() == 0 {
        seq![TokenView::ClosingBracket]
    } else if xs.len() == 1 {
        render(xs[0]) + seq![TokenView::ClosingBracket]
    } else {
        render(xs[0]) + seq![TokenView::Comma] + render_items(xs.drop_first())
    }
}

/// The elements from `p` on that `t` shares with `w`.
proof fn lemma_window<A>(t: Seq<A>, p: int, w: Seq<A>, a: int, b: int)
    requires
        0 <= p,
        p + w.len() <= t.len(),
        t.subrange(p, p + w.len()) == w,
        0 <= a <= b <= w.len(),
    ensures
        t.subrange(p + a, p + b) == w.subrange(a, b),
        a < w.len() ==> t[p + a] == w[a],
{
    assert forall|i: int| 0 <= i < b - a implies #[trigger] t.subrange(p + a, p + b)[i] == w.subrange(a, b)[i] by {
        assert(t[p + a + i] == t.subrange(p, p + w.len())[a + i]);
    }
    assert(t.subrange(p + a, p + b) =~= w.subrange(a, b));
    if a < w.len() {
        assert(t[p + a] == t.subrange(p, p + w.len())[a]);
    }
}

/// A rendered value is not empty and does not start with a closing mark.
proof fn lemma_render_start(v: Json)
    ensures
        render(v).len() > 0,
        !(render(v)[0] is ClosingBrace),
        !(render(v)[0] is ClosingBracket),
{
}

proof fn lemma_upsert_fresh(es: Seq<(Seq<char>, Json)>, k: Seq<char>, v: Json)
    requires
        forall|i: int| 0 <= i < es.len() ==> #[trigger] es[i].0 != k,
    ensures
        upsert(es, k, v) == es.push((k, v)),
{
    lemma_find_key_absent(es, k, 0);
}

proof fn lemma_find_key_absent(es: Seq<(Seq<char>, Json)>, k: Seq<char>, i: int)
    requires
        forall|j: int| 0 <= j < es.len() ==> #[trigger] es[j].0 != k,
    ensures
        find_key(es, k, i) is None,
    decreases es.len() - i,
{
    if 0 <= i < es.len() {
        lemma_find_key_absent(es, k, i + 1);
    }
}

proof fn lemma_value_round_trip(v: Json, t: Seq<TokenView>, p: int)
    requires
        well_formed(v),
        0 <= p,
        p + render(v).len() <= t.len(),
        t.subrange(p, p + render(v).len()) == render(v),
    ensures
        value_at(t, p) == Ok::<(Json, nat), crate::parser::ParseErrorView>((v, render(v).len())),
    decreases v,
{
    let w = render(v);
    lemma_window(t, p, w, 0, 0);
    match v {
        Json::Object(es) => {
            lemma_window(t, p, w, 1, 1);
            if es.len() > 0 {
                lemma_window(t, p, w, 1, w.len() as int);
                assert(w.subrange(1, w.len() as int) =~= render_entries(es));
                assert(Seq::<(Seq<char>, Json)>::empty() + es =~= es);
                assert(t[p] == TokenView::OpenBrace);
                assert(keys_distinct(Seq::<(Seq<char>, Json)>::empty() + es));
                lemma_entries_round_trip(es, Seq::empty(), true, t, p + 1);
                assert(w.len() == render_entries(es).len() + 1);
                assert(members_at(t, p + 1, Seq::empty(), true) == Ok::<(Json, nat), crate::parser::ParseErrorView>(
                    (Json::Object(es), render_entries(es).len()),
                ));
            }
        },
        Json::Array(xs) => {
            lemma_window(t, p, w, 1, 1);
            if xs.len() > 0 {
                lemma_window(t, p, w, 1, w.len() as int);
                assert(w.subrange(1, w.len() as int) =~= render_items(xs));
                assert(Seq::<Json>::empty() + xs =~= xs);
                assert(t[p] == TokenView::OpenBracket);
                lemma_items_round_trip(xs, Seq::empty(), true, t, p + 1);
                assert(w.len() == render_items(xs).len() + 1);
            }
        },
        _ => {},
    }
}

proof fn lemma_items_round_trip(xs: Seq<Json>, acc: Seq<Json>, first: bool, t: Seq<TokenView>, p: int)
    requires
        xs.len() > 0,
        forall|i: int| 0 <= i < xs.len() ==> well_formed(#[trigger] xs[i]),
        0 <= p,
        p + render_items(xs).len() <= t.len(),
        t.subrange(p, p + render_items(xs).len()) == render_items(xs),
    ensures
        items_at(t, p, acc, first) == Ok::<(Json, nat), crate::parser::ParseErrorView>(
            (Json::Array(acc + xs), render_items(xs).len()),
        ),
    decreases xs,
{
    let w = render_items(xs);
    let x = xs[0];
    let r = render(x);
    let n = r.len() as int;
    lemma_render_start(x);
    lemma_window(t, p, w, 0, n);
    assert(w.subrange(0, n) =~= r);
    lemma_value_round_trip(x, t, p);
    lemma_window(t, p, w, n, n);
    if xs.len() == 1 {
        assert(acc + xs =~= acc.push(x));
    } else {
        let rest = xs.drop_first();
        assert forall|i: int| 0 <= i < rest.len() implies well_formed(#[trigger] rest[i]) by {
            assert(rest[i] == xs[i + 1]);
        }
        lemma_window(t, p, w, n + 1, w.len() as int);
        assert(w.subrange(n + 1, w.len() as int) =~= render_items(rest));
        assert(acc.push(x) + rest =~= acc + xs);
        lemma_items_round_trip(rest, acc.push(x), false, t, p + n + 1);
    }
}

proof fn lemma_entries_round_trip(
    es: Seq<(Seq<char>, Json)>,
    acc: Seq<(Seq<char>, Json)>,
    first: bool,
    t: Seq<TokenView>,
    p: int,
)
    requires
        es.len() > 0,
        keys_distinct(acc + es),
        forall|i: int| 0 <= i < es.len() ==> well_formed(#[trigger] es[i].1),
        0 <= p,
        p + render_entries(es).len() <= t.len(),
        t.subrange(p, p + render_entries(es).len()) == render_entries(es),
    ensures
        members_at(t, p, acc, first) == Ok::<(Json, nat), crate::parser::ParseErrorView>(
            (Json::Object(acc + es), render_entries(es).len()),
        ),
    decreases es,
{
    let w = render_entries(es);
    let (k, x) = es[0];
    let r = render(x);
    let n = r.len() as int;
    lemma_window(t, p, w, 0, 0);
    lemma_window(t, p, w, 1, 1);
    lemma_window(t, p, w, 2, 2 + n);
    assert(w.subrange(2, 2 + n) =~= r);
    lemma_value_round_trip(x, t, p + 2);
    lemma_window(t, p, w, 2 + n, 2 + n);
    assert forall|i: int| 0 <= i < acc.len() implies #[trigger] acc[i].0 != k by {
        assert((acc + es)[i] == acc[i]);
        assert((acc + es)[acc.len() as int] == es[0]);
    }
    lemma_upsert_fresh(acc, k, x);
    if es.len() == 1 {
        assert(acc + es =~= acc.push((k, x)));
    } else {
        let rest = es.drop_first();
        assert forall|i: int| 0 <= i < rest.len() implies well_formed(#[trigger] rest[i].1) by {
            assert(rest[i] == es[i + 1]);
        }
        assert(acc.push((k, x)) + rest =~= acc + es);
        lemma_window(t, p, w, 3 + n, w.len() as int);
        assert(w.subrange(3 + n, w.len() as int) =~= render_entries(rest));
        assert(acc.push((k, x)) + rest =~= acc + es);
        lemma_entries_round_trip(rest, acc.push((k, x)), false, t, p + n + 3);
    }
}

/// Parsing the tokens that write out a well-formed value gives the value
/// back, and takes all of the tokens.
pub proof fn lemma_parse_render(v: Json)
    requires
        well_formed(v),
    ensures
        value_at(render(v), 0) == Ok::<(Json, nat), crate::parser::ParseErrorView>((v, render(v).len())),
{
    let t = render(v);
    assert(t.subrange(0, t.len() as int) =~= t);
    lemma_value_round_trip(v, t, 0);
}

/// The text of one token.
pub open spec fn token_text(t: TokenView) -> Seq<char> {
    match t {
        TokenView::OpenBrace => seq!['{'],
        TokenView::ClosingBrace => seq!['}'],
        TokenView::OpenBracket => seq!['['],
        TokenView::ClosingBracket => seq![']'],
        TokenView::Comma => seq![','],
        TokenView::Colon => seq![':'],
        TokenView::StringLiteral(s) => seq!['"'] + s + seq!['"'],
        TokenView::Number(n) => n,
        TokenView::True => seq!['t', 'r', 'u', 'e'],
        TokenView::False => seq!['f', 'a', 'l', 's', 'e'],
        TokenView::Null => seq!['n', 'u', 'l', 'l'],
    }
}

/// Whether the text of `t` scans back to `t`: a string body that a quote
/// after it closes, a number made of a digit or a minus and then digits and
/// dots.
pub open spec fn writable(t: TokenView) -> bool {
    match t {
        TokenView::StringLiteral(s) => string_run(s.push('"'), 0) == Some(s.len()),
        TokenView::Number(n) => {
            &&& n.len() > 0
            &&& is_digit(n[0]) || n[0] == '-'
            &&& forall|i: int| 1 <= i < n.len() ==> is_number_char(#[trigger] n[i])
            &&& is_number_text(n)
        },
        _ => true,
    }
}

/// The text of a token sequence, each token followed by a space.
pub open spec fn write_tokens(ts: Seq<TokenView>) -> Seq<char>
    decreases ts.len(),
{
    if ts.len() == 0 {
        Seq::empty()
    } else {
        token_text(ts[0]) + seq![' '] + write_tokens(ts.drop_first())
    }
}

proof fn lemma_number_run_window(s: Seq<char>, a: int, b: int)
    requires
        0 <= a <= b < s.len(),
        forall|k: int| a <= k < b ==> is_number_char(#[trigger] s[k]),
        !is_number_char(s[b]),
    ensures
        number_run(s, a) == b - a,
    decreases b - a,
{
    if a < b {
        lemma_number_run_window(s, a + 1, b);
    }
}

proof fn lemma_word_run_window(s: Seq<char>, a: int, b: int)
    requires
        0 <= a <= b < s.len(),
        forall|k: int| a <= k < b ==> is_word_char(#[trigger] s[k]),
        !is_word_char(s[b]),
    ensures
        word_run(s, a) == b - a,
    decreases b - a,
{
    if a < b {
        lemma_word_run_window(s, a + 1, b);
    }
}

proof fn lemma_string_run_window(s: Seq<char>, j: int, w: Seq<char>, a: int)
    requires
        0 <= j,
        j + w.len() <= s.len(),
        s.subrange(j, j + w.len()) == w,
        0 <= a,
        string_run(w, a) is Some,
    ensures
        string_run(s, j + a) == string_run(w, a),
    decreases w.len() - a,
{
    if a < w.len() {
        lemma_window(s, j, w, a, a);
        if w[a] == '\\' {
            lemma_string_run_window(s, j, w, a + 2);
        } else if w[a] != '"' {
            lemma_string_run_window(s, j, w, a + 1);
        }
    }
}

/// A space between tokens is skipped.
proof fn lemma_skip_space(s: Seq<char>, i: int)
    requires
        0 <= i < s.len(),
        s[i] == ' ',
    ensures
        scan_from(s, i) == scan_from(s, i + 1),
{
}

proof fn lemma_keyword_window(s: Seq<char>, i: int, w: Seq<char>)
    requires
        0 <= i,
        i + w.len() + 1 <= s.len(),
        s.subrange(i, i + w.len() + 1) == w.push(' '),
        w.len() > 0,
        forall|k: int| 0 <= k < w.len() ==> 'a' <= #[trigger] w[k] <= 'z',
    ensures
        word_run(s, i + 1) == w.len() - 1,
        s.subrange(i, i + w.len()) == w,
{
    let ww = w.push(' ');
    assert forall|k: int| i + 1 <= k < i + w.len() implies is_word_char(#[trigger] s[k]) by {
        lemma_window(s, i, ww, k - i, k - i);
        assert(ww[k - i] == w[k - i]);
    }
    lemma_window(s, i, ww, w.len() as int, w.len() as int);
    lemma_word_run_window(s, i + 1, i + w.len());
    lemma_window(s, i, ww, 0, w.len() as int);
    assert(ww.subrange(0, w.len() as int) =~= w);
}

/// The text of a writable token followed by a space scans to that token.
proof fn lemma_scan_token(s: Seq<char>, i: int, t: TokenView)
    requires
        writable(t),
        0 <= i,
        i + token_text(t).len() + 1 <= s.len(),
        s.subrange(i, i + token_text(t).len() + 1) == token_text(t).push(' '),
    ensures
        scan_from(s, i) == prepend(seq![t], scan_from(s, i + token_text(t).len() + 1)),
{
    let tt = token_text(t);
    let w = tt.push(' ');
    let m = tt.len() as int;
    lemma_window(s, i, w, 0, 0);
    lemma_window(s, i, w, m, m);
    assert(s[i + m] == ' ');
    lemma_skip_space(s, i + m);
    match t {
        TokenView::StringLiteral(body) => {
            let q = body.push('"');
            lemma_window(s, i, w, 1, m);
            assert(w.subrange(1, m) =~= q);
            lemma_string_run_window(s, i + 1, q, 0);
            lemma_window(s, i, w, 1, m - 1);
            assert(w.subrange(1, m - 1) =~= body);
        },
        TokenView::Number(n) => {
            assert forall|k: int| i + 1 <= k < i + m implies is_number_char(#[trigger] s[k]) by {
                lemma_window(s, i, w, k - i, k - i);
                assert(w[k - i] == n[k - i]);
            }
            lemma_number_run_window(s, i + 1, i + m);
            lemma_window(s, i, w, 0, m);
            assert(w.subrange(0, m) =~= n);
        },
        TokenView::True => {
            lemma_keyword_window(s, i, tt);
        },
        TokenView::False => {
            lemma_keyword_window(s, i, tt);
        },
        TokenView::Null => {
            lemma_keyword_window(s, i, tt);
        },
        _ => {},
    }
}

/// Scanning the text of writable tokens gives the tokens back.
proof fn lemma_scan_written(ts: Seq<TokenView>, s: Seq<char>, i: int)
    requires
        forall|k: int| 0 <= k < ts.len() ==> writable(#[trigger] ts[k]),
        0 <= i <= s.len(),
        s.subrange(i, s.len() as int) == write_tokens(ts),
    ensures
        scan_from(s, i) == Ok::<Seq<TokenView>, crate::scanner::ScanErrorView>(ts),
    decreases ts.len(),
{
    let w = write_tokens(ts);
    if ts.len() == 0 {
        assert(s.subrange(i, s.len() as int).len() == 0);
        assert(ts =~= Seq::<TokenView>::empty());
    } else {
        let t = ts[0];
        let tt = token_text(t);
        let m = tt.len() as int;
        let rest = ts.drop_first();
        assert(w == tt + seq![' '] + write_tokens(rest));
        lemma_window(s, i, w, 0, m + 1);
        assert(w.subrange(0, m + 1) =~= tt.push(' '));
        lemma_window(s, i, w, m + 1, w.len() as int);
        assert(w.subrange(m + 1, w.len() as int) =~= write_tokens(rest));
        assert(i + w.len() == s.len());
        assert(s.subrange(i + m + 1, s.len() as int) == write_tokens(rest));
        lemma_scan_token(s, i, t);
        assert forall|k: int| 0 <= k < rest.len() implies writable(#[trigger] rest[k]) by {
            assert(rest[k] == ts[k + 1]);
        }
        lemma_scan_written(rest, s, i + m + 1);
        assert(seq![t] + rest =~= ts);
    }
}

/// Writing out a well-formed value whose strings and numbers all have texts
/// that scan back to them, then scanning that text and parsing the tokens,
/// gives the value back, every token taken.
pub proof fn lemma_scan_parse_written(v: Json)
    requires
        well_formed(v),
        forall|k: int| 0 <= k < render(v).len() ==> writable(#[trigger] render(v)[k]),
    ensures
        scan_text(write_tokens(render(v))) == Ok::<Seq<TokenView>, crate::scanner::ScanErrorView>(render(v)),
        value_at(render(v), 0) == Ok::<(Json, nat), crate::parser::ParseErrorView>((v, render(v).len())),
{
    let s = write_tokens(render(v));
    assert(s.subrange(0, s.len() as int) =~= s);
    lemma_scan_written(render(v), s, 0);
    lemma_parse_render(v);
}

} // verus!

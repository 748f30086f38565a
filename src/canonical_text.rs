//! The canonical text of a query scans to the canonical tokens of the query,
//! so that the text parses back to the query.
use vstd::prelude::*;
use crate::aggregate::{AggregateFunction, function_name};
use crate::canonical::{
    expr_tokens, field_tokens, group_tokens, lemma_parse_query_tokens, list_tokens, oks,
    order_clause_tokens, order_tokens, query_tokens, query_wf, where_tokens,
};
use crate::expr::{ExprV, escaped, escaped_char, expr_text, identifier_text, is_bare};
use crate::parser::{ParseErr, parse_text, tokens, tokens_from};
use crate::query::{QueryV, SortDirection, direction_text, exprs_text, joined, order_field_text, query_text};
use crate::scanner::{
    ScanError, lemma_next_token_advances, next_token, quoted, skip_spaces, unescape, word_end,
};
use crate::token::{
    Tok, is_letter, is_space, is_word_char, kw_asc, kw_by, kw_desc, kw_from, kw_group, kw_order,
    kw_select, kw_where, lower_seq, word_token,
};

verus! {

/// `s` holds `t` from position `p` on.
pub open spec fn text_at(s: Seq<char>, p: int, t: Seq<char>) -> bool {
    0 <= p && p + t.len() <= s.len() && s.subrange(p, p + t.len()) == t
}

/// Nothing at `p` can continue a word.
pub open spec fn word_boundary(s: Seq<char>, p: int) -> bool {
    p >= s.len() || (p >= 0 && !is_word_char(s[p]))
}

proof fn lemma_text_at_split(s: Seq<char>, p: int, a: Seq<char>, b: Seq<char>)
    requires
        text_at(s, p, a + b),
    ensures
        text_at(s, p, a),
        text_at(s, p + a.len(), b),
{
    let w = s.subrange(p, p + a.len() + b.len());
    assert forall|k: int| 0 <= k < a.len() implies s.subrange(p, p + a.len())[k] == a[k] by {
        assert(w[k] == (a + b)[k]);
    }
    assert(s.subrange(p, p + a.len()) =~= a);
    assert forall|k: int| 0 <= k < b.len() implies s.subrange(p + a.len(), p + a.len() + b.len())[k] == b[k] by {
        assert(w[a.len() + k] == (a + b)[a.len() + k]);
    }
    assert(s.subrange(p + a.len(), p + a.len() + b.len()) =~= b);
}

proof fn lemma_text_at_char(s: Seq<char>, p: int, t: Seq<char>, k: int)
    requires
        text_at(s, p, t),
        0 <= k < t.len(),
    ensures
        s[p + k] == t[k],
{
    assert(s.subrange(p, p + t.len())[k] == s[p + k]);
}

proof fn lemma_word_end(s: Seq<char>, p: int, e: int)
    requires
        0 <= p <= e <= s.len(),
        forall|k: int| p <= k < e ==> is_word_char(#[trigger] s[k]),
        word_boundary(s, e),
    ensures
        word_end(s, p) == e,
    decreases e - p,
{
    if p < e {
        lemma_word_end(s, p + 1, e);
    }
}

proof fn lemma_escaped_concat(a: Seq<char>, b: Seq<char>, d: char)
    ensures
        escaped(a + b, d) == escaped(a, d) + escaped(b, d),
    decreases b.len(),
{
    if b.len() == 0 {
        assert(a + b =~= a);
        assert(escaped(a, d) + escaped(b, d) =~= escaped(a, d));
    } else {
        assert((a + b).drop_last() =~= a + b.drop_last());
        assert((a + b).last() == b.last());
        lemma_escaped_concat(a, b.drop_last(), d);
        assert(escaped(a + b, d) =~= escaped(a, d) + escaped(b, d));
    }
}

proof fn lemma_quoted_escaped(s: Seq<char>, p: int, n: Seq<char>)
    requires
        text_at(s, p, escaped(n, '"') + seq!['"']),
    ensures
        quoted(s, p, '"') == Some((n, p + escaped(n, '"').len() + 1)),
    decreases n.len(),
{
    let en = escaped(n, '"');
    lemma_text_at_split(s, p, en, seq!['"']);
    if n.len() == 0 {
        assert(en.len() == 0);
        lemma_text_at_char(s, p, seq!['"'], 0);
    } else {
        let c = n[0];
        let rest = n.drop_first();
        assert(n =~= seq![c] + rest);
        lemma_escaped_concat(seq![c], rest, '"');
        let ec = escaped_char(c, '"');
        assert(escaped(seq![c], '"') == escaped(Seq::<char>::empty(), '"') + ec) by {
            assert(seq![c].drop_last() =~= Seq::<char>::empty());
        }
        assert(escaped(seq![c], '"') =~= ec);
        assert(en == ec + escaped(rest, '"'));
        assert(en + seq!['"'] =~= ec + (escaped(rest, '"') + seq!['"']));
        lemma_text_at_split(s, p, ec, escaped(rest, '"') + seq!['"']);
        lemma_text_at_char(s, p, ec, 0);
        if c == '\n' || c == '\\' || c == '"' {
            lemma_text_at_char(s, p, ec, 1);
            assert(unescape(s[p + 1]) == c);
        }
        lemma_quoted_escaped(s, p + ec.len(), rest);
        assert(seq![c] + rest == n);
    }
}

/// A token's text at `p` that starts with a letter and is made of word
/// characters is read as the word it spells.
proof fn lemma_scan_word(s: Seq<char>, p: int, w: Seq<char>)
    requires
        text_at(s, p, w),
        w.len() > 0,
        is_letter(w[0]),
        forall|k: int| 0 <= k < w.len() ==> is_word_char(#[trigger] w[k]),
        word_boundary(s, p + w.len()),
    ensures
        next_token(s, p) == Some((Ok::<Tok, ScanError>(word_token(w)), p + w.len())),
{
    lemma_text_at_char(s, p, w, 0);
    assert(!is_space(s[p]));
    assert forall|k: int| p <= k < p + w.len() implies is_word_char(#[trigger] s[k]) by {
        lemma_text_at_char(s, p, w, k - p);
    }
    lemma_word_end(s, p, p + w.len());
}

/// An identifier's canonical text at `p` is read as the identifier.
proof fn lemma_scan_identifier(s: Seq<char>, p: int, n: Seq<char>)
    requires
        text_at(s, p, identifier_text(n)),
        word_boundary(s, p + identifier_text(n).len()),
    ensures
        next_token(s, p) == Some((Ok::<Tok, ScanError>(Tok::Identifier(n)), p + identifier_text(n).len())),
{
    if is_bare(n) {
        lemma_scan_word(s, p, n);
    } else {
        let t = identifier_text(n);
        assert(t =~= seq!['"'] + (escaped(n, '"') + seq!['"']));
        lemma_text_at_split(s, p, seq!['"'], escaped(n, '"') + seq!['"']);
        lemma_text_at_char(s, p, seq!['"'], 0);
        lemma_quoted_escaped(s, p + 1, n);
    }
}

/// One token read at `p` is the first of the tokens from `p`.
proof fn lemma_tokens_step(s: Seq<char>, p: int, t: Tok, q: int)
    requires
        0 <= p <= s.len(),
        next_token(s, p) == Some((Ok::<Tok, ScanError>(t), q)),
    ensures
        tokens_from(s, p) == seq![Ok::<Tok, ScanError>(t)] + tokens_from(s, q),
{
    lemma_next_token_advances(s, p);
}

/// A space before the next token changes nothing.
proof fn lemma_tokens_space(s: Seq<char>, p: int)
    requires
        0 <= p < s.len(),
        s[p] == ' ',
    ensures
        tokens_from(s, p) == tokens_from(s, p + 1),
{
    assert(skip_spaces(s, p) == skip_spaces(s, p + 1));
    assert(next_token(s, p) == next_token(s, p + 1));
    lemma_next_token_advances(s, p + 1);
}

/// No tokens are left at the end.
proof fn lemma_tokens_end(s: Seq<char>)
    ensures
        tokens_from(s, s.len() as int) == Seq::<Result<Tok, ScanError>>::empty(),
{
}

proof fn lemma_oks_concat(a: Seq<Tok>, b: Seq<Tok>)
    ensures
        oks(a + b) == oks(a) + oks(b),
{
    assert(oks(a + b) =~= oks(a) + oks(b));
}

/// A punctuation character at `p` is read as its token.
proof fn lemma_scan_char(s: Seq<char>, p: int, c: char, t: Tok)
    requires
        0 <= p < s.len(),
        s[p] == c,
        (c == '(' && t == Tok::OpenParen) || (c == ')' && t == Tok::CloseParen) || (c == ',' && t
            == Tok::Comma) || (c == '=' && t == Tok::Eq),
    ensures
        tokens_from(s, p) == seq![Ok::<Tok, ScanError>(t)] + tokens_from(s, p + 1),
{
    assert(skip_spaces(s, p) == p);
    lemma_tokens_step(s, p, t, p + 1);
}

proof fn lemma_lower_fixed(w: Seq<char>)
    requires
        forall|k: int| 0 <= k < w.len() ==> 'a' <= #[trigger] w[k] <= 'z',
    ensures
        lower_seq(w) == w,
{
    assert(lower_seq(w) =~= w);
}

/// Each function name reads as an identifier, not as a keyword.
proof fn lemma_function_word(f: AggregateFunction)
    ensures
        word_token(function_name(f)) == Tok::Identifier(function_name(f)),
        function_name(f).len() > 0,
        is_letter(function_name(f)[0]),
        forall|k: int| 0 <= k < function_name(f).len() ==> is_word_char(#[trigger] function_name(f)[k]),
{
    let n = function_name(f);
    lemma_lower_fixed(n);
    assert(n[0] != kw_select()[0] || n.len() != kw_select().len());
    assert(n[0] != kw_from()[0] || n.len() != kw_from().len());
    assert(n[0] != kw_where()[0] || n.len() != kw_where().len());
    assert(n[0] != kw_group()[0] || n.len() != kw_group().len());
    assert(n[0] != kw_order()[0] || n.len() != kw_order().len());
    assert(n.len() != kw_by().len());
    assert(n[1] != kw_asc()[1] || n.len() != kw_asc().len());
    assert(n[0] != kw_desc()[0] || n.len() != kw_desc().len());
}

proof fn lemma_scan_call(f: AggregateFunction, a: ExprV, s: Seq<char>, p: int)
    requires
        text_at(s, p, expr_text(ExprV::Call(f, Box::new(a)))),
        ({
            let p2 = p + function_name(f).len() + 1;
            tokens_from(s, p2) == oks(expr_tokens(a)) + tokens_from(s, p2 + expr_text(a).len())
        }),
    ensures
        ({
            let e = ExprV::Call(f, Box::new(a));
            tokens_from(s, p) == oks(expr_tokens(e)) + tokens_from(s, p + expr_text(e).len())
        }),
{
    let e = ExprV::Call(f, Box::new(a));
    let t = expr_text(e);
    let name = function_name(f);
    let ta = expr_text(a);
    assert(t == name + seq!['('] + ta + seq![')']);
    lemma_text_at_split(s, p, name + seq!['('] + ta, seq![')']);
    lemma_text_at_split(s, p, name + seq!['('], ta);
    lemma_text_at_split(s, p, name, seq!['(']);
    let p1 = p + name.len();
    let p2 = p1 + 1;
    let p3 = p2 + ta.len();
    lemma_text_at_char(s, p1, seq!['('], 0);
    lemma_text_at_char(s, p3, seq![')'], 0);
    lemma_function_word(f);
    lemma_scan_word(s, p, name);
    lemma_tokens_step(s, p, Tok::Identifier(name), p1);
    lemma_scan_char(s, p1, '(', Tok::OpenParen);
    lemma_scan_char(s, p3, ')', Tok::CloseParen);
    let x = seq![Tok::Identifier(name), Tok::OpenParen];
    assert(expr_tokens(e) == x + expr_tokens(a) + seq![Tok::CloseParen]);
    lemma_oks_concat(x + expr_tokens(a), seq![Tok::CloseParen]);
    lemma_oks_concat(x, expr_tokens(a));
    assert(oks(x) =~= seq![Ok::<Tok, ScanError>(Tok::Identifier(name)), Ok::<Tok, ScanError>(Tok::OpenParen)]);
    assert(oks(seq![Tok::CloseParen]) =~= seq![Ok::<Tok, ScanError>(Tok::CloseParen)]);
    assert(tokens_from(s, p) =~= oks(expr_tokens(e)) + tokens_from(s, p + t.len()));
}

proof fn lemma_scan_binary(l: ExprV, op: crate::expr::BinaryOp, r: ExprV, s: Seq<char>, p: int)
    requires
        text_at(s, p, expr_text(ExprV::Binary(Box::new(l), op, Box::new(r)))),
        tokens_from(s, p) == oks(expr_tokens(l)) + tokens_from(s, p + expr_text(l).len()),
        ({
            let p3 = p + expr_text(l).len() + 3;
            tokens_from(s, p3) == oks(expr_tokens(r)) + tokens_from(s, p3 + expr_text(r).len())
        }),
    ensures
        ({
            let e = ExprV::Binary(Box::new(l), op, Box::new(r));
            tokens_from(s, p) == oks(expr_tokens(e)) + tokens_from(s, p + expr_text(e).len())
        }),
{
    let e = ExprV::Binary(Box::new(l), op, Box::new(r));
    let t = expr_text(e);
    let tl = expr_text(l);
    let tr = expr_text(r);
    let mid = seq![' ', '=', ' '];
    assert(t == tl + mid + tr);
    lemma_text_at_split(s, p, tl + mid, tr);
    lemma_text_at_split(s, p, tl, mid);
    let p1 = p + tl.len();
    lemma_text_at_char(s, p1, mid, 0);
    lemma_text_at_char(s, p1, mid, 1);
    lemma_text_at_char(s, p1, mid, 2);
    lemma_tokens_space(s, p1);
    lemma_scan_char(s, p1 + 1, '=', Tok::Eq);
    lemma_tokens_space(s, p1 + 2);
    assert(expr_tokens(e) == expr_tokens(l) + seq![Tok::Eq] + expr_tokens(r));
    lemma_oks_concat(expr_tokens(l) + seq![Tok::Eq], expr_tokens(r));
    lemma_oks_concat(expr_tokens(l), seq![Tok::Eq]);
    assert(oks(seq![Tok::Eq]) =~= seq![Ok::<Tok, ScanError>(Tok::Eq)]);
    assert(tokens_from(s, p) =~= oks(expr_tokens(e)) + tokens_from(s, p + t.len()));
}

/// The canonical text of an expression scans to its tokens.
proof fn lemma_scan_expr(e: ExprV, s: Seq<char>, p: int)
    requires
        text_at(s, p, expr_text(e)),
        word_boundary(s, p + expr_text(e).len()),
    ensures
        tokens_from(s, p) == oks(expr_tokens(e)) + tokens_from(s, p + expr_text(e).len()),
    decreases e,
{
    let t = expr_text(e);
    match e {
        ExprV::Column(n) => {
            lemma_scan_identifier(s, p, n);
            lemma_tokens_step(s, p, Tok::Identifier(n), p + t.len());
            assert(oks(expr_tokens(e)) =~= seq![Ok::<Tok, ScanError>(Tok::Identifier(n))]);
        },
        ExprV::Call(f, a) => {
            let name = function_name(f);
            let ta = expr_text(*a);
            assert(t == name + seq!['('] + ta + seq![')']);
            lemma_text_at_split(s, p, name + seq!['('] + ta, seq![')']);
            lemma_text_at_split(s, p, name + seq!['('], ta);
            let p3 = p + name.len() + 1 + ta.len();
            lemma_text_at_char(s, p3, seq![')'], 0);
            lemma_scan_expr(*a, s, p + name.len() + 1);
            lemma_scan_call(f, *a, s, p);
        },
        ExprV::Binary(l, op, r) => {
            let tl = expr_text(*l);
            let tr = expr_text(*r);
            let mid = seq![' ', '=', ' '];
            assert(t == tl + mid + tr);
            lemma_text_at_split(s, p, tl + mid, tr);
            lemma_text_at_split(s, p, tl, mid);
            lemma_text_at_char(s, p + tl.len(), mid, 0);
            lemma_scan_expr(*l, s, p);
            lemma_scan_expr(*r, s, p + tl.len() + 3);
            lemma_scan_binary(*l, op, *r, s, p);
        },
    }
}

/// The keywords read as their tokens.
proof fn lemma_keyword_words()
    ensures
        word_token(kw_select()) == Tok::Select,
        word_token(kw_from()) == Tok::From,
        word_token(kw_where()) == Tok::Where,
        word_token(kw_group()) == Tok::Group,
        word_token(kw_order()) == Tok::Order,
        word_token(kw_by()) == Tok::By,
        word_token(kw_asc()) == Tok::Asc,
        word_token(kw_desc()) == Tok::Desc,
{
    lemma_lower_fixed(kw_select());
    lemma_lower_fixed(kw_from());
    lemma_lower_fixed(kw_where());
    lemma_lower_fixed(kw_group());
    lemma_lower_fixed(kw_order());
    lemma_lower_fixed(kw_by());
    lemma_lower_fixed(kw_asc());
    lemma_lower_fixed(kw_desc());
    assert(kw_group()[0] != kw_where()[0]);
    assert(kw_order()[0] != kw_where()[0]);
    assert(kw_order()[0] != kw_group()[0]);
    assert(kw_desc()[0] != kw_from()[0]);
}

/// A keyword's text at `p` is read as the keyword.
proof fn lemma_scan_keyword(s: Seq<char>, p: int, w: Seq<char>, t: Tok)
    requires
        text_at(s, p, w),
        word_boundary(s, p + w.len()),
        w.len() > 0,
        forall|k: int| 0 <= k < w.len() ==> 'a' <= #[trigger] w[k] <= 'z',
        word_token(w) == t,
    ensures
        tokens_from(s, p) == seq![Ok::<Tok, ScanError>(t)] + tokens_from(s, p + w.len()),
{
    lemma_scan_word(s, p, w);
    lemma_tokens_step(s, p, t, p + w.len());
}

proof fn lemma_list_tokens_back(es: Seq<ExprV>)
    requires
        es.len() >= 2,
    ensures
        list_tokens(es) == list_tokens(es.drop_last()) + seq![Tok::Comma] + expr_tokens(es.last()),
    decreases es.len(),
{
    let rest = es.drop_first();
    if es.len() == 2 {
        assert(rest.len() == 1);
        assert(es.drop_last().len() == 1);
        assert(es.drop_last()[0] == es[0]);
        assert(rest[0] == es.last());
        assert(list_tokens(rest) == expr_tokens(rest[0]));
        assert(list_tokens(es.drop_last()) == expr_tokens(es.drop_last()[0]));
        assert(list_tokens(es) == expr_tokens(es[0]) + seq![Tok::Comma] + list_tokens(rest));
        assert(list_tokens(es) =~= list_tokens(es.drop_last()) + seq![Tok::Comma] + expr_tokens(es.last()));
    } else {
        lemma_list_tokens_back(rest);
        let dl = es.drop_last();
        assert(dl.drop_first() =~= rest.drop_last());
        assert(dl[0] == es[0]);
        assert(rest.last() == es.last());
        assert(list_tokens(dl) == expr_tokens(es[0]) + seq![Tok::Comma] + list_tokens(dl.drop_first()));
        assert(list_tokens(es) == expr_tokens(es[0]) + seq![Tok::Comma] + list_tokens(rest));
        assert(list_tokens(es) =~= list_tokens(dl) + seq![Tok::Comma] + expr_tokens(es.last()));
    }
}

proof fn lemma_order_tokens_back(os: Seq<(ExprV, Option<SortDirection>)>)
    requires
        os.len() >= 2,
    ensures
        order_tokens(os) == order_tokens(os.drop_last()) + seq![Tok::Comma] + field_tokens(os.last()),
    decreases os.len(),
{
    let rest = os.drop_first();
    if os.len() == 2 {
        assert(rest.len() == 1);
        assert(os.drop_last().len() == 1);
        assert(os.drop_last()[0] == os[0]);
        assert(rest[0] == os.last());
        assert(order_tokens(rest) == field_tokens(rest[0]));
        assert(order_tokens(os.drop_last()) == field_tokens(os.drop_last()[0]));
        assert(order_tokens(os) == field_tokens(os[0]) + seq![Tok::Comma] + order_tokens(rest));
        assert(order_tokens(os) =~= order_tokens(os.drop_last()) + seq![Tok::Comma] + field_tokens(os.last()));
    } else {
        lemma_order_tokens_back(rest);
        let dl = os.drop_last();
        assert(dl.drop_first() =~= rest.drop_last());
        assert(dl[0] == os[0]);
        assert(rest.last() == os.last());
        assert(order_tokens(dl) == field_tokens(os[0]) + seq![Tok::Comma] + order_tokens(dl.drop_first()));
        assert(order_tokens(os) == field_tokens(os[0]) + seq![Tok::Comma] + order_tokens(rest));
        assert(order_tokens(os) =~= order_tokens(dl) + seq![Tok::Comma] + field_tokens(os.last()));
    }
}

/// `, ` and then the text of one more item, after the tokens of the items
/// before it.
proof fn lemma_scan_comma_then(s: Seq<char>, p: int, head: Seq<char>, tail: Seq<char>)
    requires
        text_at(s, p, head + seq![',', ' '] + tail),
    ensures
        tokens_from(s, p + head.len()) == seq![Ok::<Tok, ScanError>(Tok::Comma)] + tokens_from(s, p + head.len() + 2),
        text_at(s, p + head.len() + 2, tail),
        text_at(s, p, head),
{
    lemma_text_at_split(s, p, head + seq![',', ' '], tail);
    lemma_text_at_split(s, p, head, seq![',', ' ']);
    let q = p + head.len();
    lemma_text_at_char(s, q, seq![',', ' '], 0);
    lemma_text_at_char(s, q, seq![',', ' '], 1);
    lemma_scan_char(s, q, ',', Tok::Comma);
    lemma_tokens_space(s, q + 1);
}

/// A list of expressions in canonical text scans to the list's tokens.
proof fn lemma_scan_list(es: Seq<ExprV>, s: Seq<char>, p: int)
    requires
        es.len() > 0,
        text_at(s, p, exprs_text(es)),
        word_boundary(s, p + exprs_text(es).len()),
    ensures
        tokens_from(s, p) == oks(list_tokens(es)) + tokens_from(s, p + exprs_text(es).len()),
    decreases es.len(),
{
    let parts = es.map_values(|e: ExprV| expr_text(e));
    if es.len() == 1 {
        assert(exprs_text(es) == expr_text(es[0]));
        lemma_scan_expr(es[0], s, p);
    } else {
        let init = es.drop_last();
        assert(parts.drop_last() =~= init.map_values(|e: ExprV| expr_text(e)));
        let head = exprs_text(init);
        let tail = expr_text(es.last());
        assert(exprs_text(es) == head + seq![',', ' '] + tail);
        lemma_scan_comma_then(s, p, head, tail);
        assert(head + seq![',', ' '] + tail =~= head + (seq![',', ' '] + tail));
        lemma_text_at_split(s, p, head, seq![',', ' '] + tail);
        lemma_text_at_char(s, p + head.len(), seq![',', ' '] + tail, 0);
        lemma_scan_list(init, s, p);
        lemma_scan_expr(es.last(), s, p + head.len() + 2);
        lemma_list_tokens_back(es);
        lemma_oks_concat(list_tokens(init) + seq![Tok::Comma], expr_tokens(es.last()));
        lemma_oks_concat(list_tokens(init), seq![Tok::Comma]);
        assert(oks(seq![Tok::Comma]) =~= seq![Ok::<Tok, ScanError>(Tok::Comma)]);
        assert(tokens_from(s, p) =~= oks(list_tokens(es)) + tokens_from(s, p + exprs_text(es).len()));
    }
}

proof fn lemma_scan_field(o: (ExprV, Option<SortDirection>), s: Seq<char>, p: int)
    requires
        text_at(s, p, order_field_text(o)),
        word_boundary(s, p + order_field_text(o).len()),
    ensures
        tokens_from(s, p) == oks(field_tokens(o)) + tokens_from(s, p + order_field_text(o).len()),
{
    let te = expr_text(o.0);
    let td = direction_text(o.1);
    lemma_text_at_split(s, p, te, td);
    let q = p + te.len();
    match o.1 {
        None => {
            assert(td.len() == 0);
            assert(field_tokens(o) =~= expr_tokens(o.0));
            lemma_scan_expr(o.0, s, p);
        },
        Some(d) => {
            let (w, t) = match d {
                SortDirection::Asc => (kw_asc(), Tok::Asc),
                SortDirection::Desc => (kw_desc(), Tok::Desc),
            };
            assert(td =~= seq![' '] + w);
            lemma_text_at_split(s, q, seq![' '], w);
            lemma_text_at_char(s, q, seq![' '], 0);
            lemma_scan_expr(o.0, s, p);
            lemma_tokens_space(s, q);
            lemma_keyword_words();
            lemma_scan_keyword(s, q + 1, w, t);
            assert(field_tokens(o) == expr_tokens(o.0) + seq![t]);
            lemma_oks_concat(expr_tokens(o.0), seq![t]);
            assert(oks(seq![t]) =~= seq![Ok::<Tok, ScanError>(t)]);
            assert(tokens_from(s, p) =~= oks(field_tokens(o)) + tokens_from(s, p + order_field_text(o).len()));
        },
    }
}

pub open spec fn order_list_text(os: Seq<(ExprV, Option<SortDirection>)>) -> Seq<char> {
    joined(os.map_values(|o: (ExprV, Option<SortDirection>)| order_field_text(o)))
}

proof fn lemma_scan_order_list(os: Seq<(ExprV, Option<SortDirection>)>, s: Seq<char>, p: int)
    requires
        os.len() > 0,
        text_at(s, p, order_list_text(os)),
        word_boundary(s, p + order_list_text(os).len()),
    ensures
        tokens_from(s, p) == oks(order_tokens(os)) + tokens_from(s, p + order_list_text(os).len()),
    decreases os.len(),
{
    let parts = os.map_values(|o: (ExprV, Option<SortDirection>)| order_field_text(o));
    if os.len() == 1 {
        assert(order_list_text(os) == order_field_text(os[0]));
        lemma_scan_field(os[0], s, p);
    } else {
        let init = os.drop_last();
        assert(parts.drop_last() =~= init.map_values(|o: (ExprV, Option<SortDirection>)| order_field_text(o)));
        let head = order_list_text(init);
        let tail = order_field_text(os.last());
        assert(order_list_text(os) == head + seq![',', ' '] + tail);
        lemma_scan_comma_then(s, p, head, tail);
        assert(head + seq![',', ' '] + tail =~= head + (seq![',', ' '] + tail));
        lemma_text_at_split(s, p, head, seq![',', ' '] + tail);
        lemma_text_at_char(s, p + head.len(), seq![',', ' '] + tail, 0);
        lemma_scan_order_list(init, s, p);
        lemma_scan_field(os.last(), s, p + head.len() + 2);
        lemma_order_tokens_back(os);
        lemma_oks_concat(order_tokens(init) + seq![Tok::Comma], field_tokens(os.last()));
        lemma_oks_concat(order_tokens(init), seq![Tok::Comma]);
        assert(oks(seq![Tok::Comma]) =~= seq![Ok::<Tok, ScanError>(Tok::Comma)]);
        assert(tokens_from(s, p) =~= oks(order_tokens(os)) + tokens_from(s, p + order_list_text(os).len()));
    }
}

/// ` kw` is read as the keyword `t`.
proof fn lemma_scan_space_keyword(s: Seq<char>, p: int, w: Seq<char>, t: Tok)
    requires
        text_at(s, p, seq![' '] + w),
        word_boundary(s, p + 1 + w.len()),
        w.len() > 0,
        forall|k: int| 0 <= k < w.len() ==> 'a' <= #[trigger] w[k] <= 'z',
        word_token(w) == t,
    ensures
        tokens_from(s, p) == seq![Ok::<Tok, ScanError>(t)] + tokens_from(s, p + 1 + w.len()),
{
    lemma_text_at_split(s, p, seq![' '], w);
    lemma_text_at_char(s, p, seq![' '], 0);
    lemma_tokens_space(s, p);
    lemma_scan_keyword(s, p + 1, w, t);
}

/// What follows text `r` at `p`, when `r` is empty or starts with a space,
/// and `r` runs to the end, is a word boundary.
proof fn lemma_boundary_before(s: Seq<char>, p: int, r: Seq<char>)
    requires
        text_at(s, p, r),
        p + r.len() == s.len(),
        r.len() > 0 ==> r[0] == ' ',
    ensures
        word_boundary(s, p),
{
    if r.len() > 0 {
        lemma_text_at_char(s, p, r, 0);
    }
}

pub open spec fn where_text(c: Option<ExprV>) -> Seq<char> {
    match c {
        Some(e) => seq![' ', 'w', 'h', 'e', 'r', 'e', ' '] + expr_text(e),
        None => Seq::empty(),
    }
}

pub open spec fn group_text(g: Seq<ExprV>) -> Seq<char> {
    if g.len() > 0 {
        seq![' ', 'g', 'r', 'o', 'u', 'p', ' ', 'b', 'y', ' '] + exprs_text(g)
    } else {
        Seq::empty()
    }
}

pub open spec fn order_text(o: Seq<(ExprV, Option<SortDirection>)>) -> Seq<char> {
    if o.len() > 0 {
        seq![' ', 'o', 'r', 'd', 'e', 'r', ' ', 'b', 'y', ' '] + order_list_text(o)
    } else {
        Seq::empty()
    }
}

proof fn lemma_scan_where_clause(c: Option<ExprV>, s: Seq<char>, p: int)
    requires
        text_at(s, p, where_text(c)),
        word_boundary(s, p + where_text(c).len()),
    ensures
        tokens_from(s, p) == oks(where_tokens(c)) + tokens_from(s, p + where_text(c).len()),
{
    match c {
        Some(e) => {
            let w = where_text(c);
            assert(w =~= (seq![' '] + kw_where()) + (seq![' '] + expr_text(e)));
            lemma_text_at_split(s, p, seq![' '] + kw_where(), seq![' '] + expr_text(e));
            lemma_text_at_split(s, p + 6, seq![' '], expr_text(e));
            lemma_text_at_char(s, p + 6, seq![' '], 0);
            lemma_keyword_words();
            lemma_scan_space_keyword(s, p, kw_where(), Tok::Where);
            lemma_tokens_space(s, p + 6);
            lemma_scan_expr(e, s, p + 7);
            lemma_oks_concat(seq![Tok::Where], expr_tokens(e));
            assert(oks(seq![Tok::Where]) =~= seq![Ok::<Tok, ScanError>(Tok::Where)]);
            assert(tokens_from(s, p) =~= oks(where_tokens(c)) + tokens_from(s, p + w.len()));
        },
        None => {
            assert(oks(where_tokens(c)) =~= Seq::<Result<Tok, ScanError>>::empty());
            assert(oks(where_tokens(c)) + tokens_from(s, p) =~= tokens_from(s, p));
        },
    }
}

proof fn lemma_scan_group_clause(g: Seq<ExprV>, s: Seq<char>, p: int)
    requires
        text_at(s, p, group_text(g)),
        word_boundary(s, p + group_text(g).len()),
    ensures
        tokens_from(s, p) == oks(group_tokens(g)) + tokens_from(s, p + group_text(g).len()),
{
    if g.len() > 0 {
        let w = group_text(g);
        assert(w =~= (seq![' '] + kw_group()) + (seq![' '] + kw_by()) + (seq![' '] + exprs_text(g)));
        lemma_text_at_split(s, p, (seq![' '] + kw_group()) + (seq![' '] + kw_by()), seq![' '] + exprs_text(g));
        lemma_text_at_split(s, p, seq![' '] + kw_group(), seq![' '] + kw_by());
        lemma_text_at_split(s, p + 9, seq![' '], exprs_text(g));
        lemma_text_at_char(s, p + 9, seq![' '], 0);
        lemma_text_at_split(s, p + 6, seq![' '], kw_by());
        lemma_text_at_char(s, p + 6, seq![' '], 0);
        lemma_keyword_words();
        lemma_scan_space_keyword(s, p, kw_group(), Tok::Group);
        lemma_scan_space_keyword(s, p + 6, kw_by(), Tok::By);
        lemma_tokens_space(s, p + 9);
        lemma_scan_list(g, s, p + 10);
        lemma_oks_concat(seq![Tok::Group, Tok::By], list_tokens(g));
        assert(oks(seq![Tok::Group, Tok::By]) =~= seq![Ok::<Tok, ScanError>(Tok::Group), Ok::<Tok, ScanError>(Tok::By)]);
        assert(tokens_from(s, p) =~= oks(group_tokens(g)) + tokens_from(s, p + w.len()));
    } else {
        assert(oks(group_tokens(g)) =~= Seq::<Result<Tok, ScanError>>::empty());
        assert(oks(group_tokens(g)) + tokens_from(s, p) =~= tokens_from(s, p));
    }
}

proof fn lemma_scan_order_clause(o: Seq<(ExprV, Option<SortDirection>)>, s: Seq<char>, p: int)
    requires
        text_at(s, p, order_text(o)),
        word_boundary(s, p + order_text(o).len()),
    ensures
        tokens_from(s, p) == oks(order_clause_tokens(o)) + tokens_from(s, p + order_text(o).len()),
{
    if o.len() > 0 {
        let w = order_text(o);
        assert(w =~= (seq![' '] + kw_order()) + (seq![' '] + kw_by()) + (seq![' '] + order_list_text(o)));
        lemma_text_at_split(s, p, (seq![' '] + kw_order()) + (seq![' '] + kw_by()), seq![' '] + order_list_text(o));
        lemma_text_at_split(s, p, seq![' '] + kw_order(), seq![' '] + kw_by());
        lemma_text_at_split(s, p + 9, seq![' '], order_list_text(o));
        lemma_text_at_char(s, p + 9, seq![' '], 0);
        lemma_text_at_split(s, p + 6, seq![' '], kw_by());
        lemma_text_at_char(s, p + 6, seq![' '], 0);
        lemma_keyword_words();
        lemma_scan_space_keyword(s, p, kw_order(), Tok::Order);
        lemma_scan_space_keyword(s, p + 6, kw_by(), Tok::By);
        lemma_tokens_space(s, p + 9);
        lemma_scan_order_list(o, s, p + 10);
        lemma_oks_concat(seq![Tok::Order, Tok::By], order_tokens(o));
        assert(oks(seq![Tok::Order, Tok::By]) =~= seq![Ok::<Tok, ScanError>(Tok::Order), Ok::<Tok, ScanError>(Tok::By)]);
        assert(tokens_from(s, p) =~= oks(order_clause_tokens(o)) + tokens_from(s, p + w.len()));
    } else {
        assert(oks(order_clause_tokens(o)) =~= Seq::<Result<Tok, ScanError>>::empty());
        assert(oks(order_clause_tokens(o)) + tokens_from(s, p) =~= tokens_from(s, p));
    }
}

proof fn lemma_query_text_shape(q: QueryV)
    ensures
        query_text(q) == (kw_select() + seq![' ']) + exprs_text(q.select) + (seq![' '] + kw_from() + seq![' '])
            + identifier_text(q.from) + (where_text(q.condition) + (group_text(q.group) + order_text(q.order))),
{
    let o = q.order.map_values(|x: (ExprV, Option<SortDirection>)| order_field_text(x));
    assert(order_list_text(q.order) == joined(o));
    assert(query_text(q) =~= (kw_select() + seq![' ']) + exprs_text(q.select) + (seq![' '] + kw_from() + seq![' '])
            + identifier_text(q.from) + (where_text(q.condition) + (group_text(q.group) + order_text(q.order))));
}

proof fn lemma_clause_texts_start(q: QueryV)
    ensures
        where_text(q.condition).len() > 0 ==> where_text(q.condition)[0] == ' ',
        group_text(q.group).len() > 0 ==> group_text(q.group)[0] == ' ',
        order_text(q.order).len() > 0 ==> order_text(q.order)[0] == ' ',
{
}

/// The head of a query's text, `select L from `, scans to `select`, the
/// list's tokens and `from`.
proof fn lemma_scan_query_head(q: QueryV, s: Seq<char>)
    requires
        q.select.len() > 0,
        text_at(s, 0, (kw_select() + seq![' ']) + exprs_text(q.select) + (seq![' '] + kw_from() + seq![' '])),
    ensures
        ({
            let pi: int = 13 + exprs_text(q.select).len() as int;
            tokens_from(s, 0) == seq![Ok::<Tok, ScanError>(Tok::Select)] + oks(list_tokens(q.select)) + (seq![
                Ok::<Tok, ScanError>(Tok::From),
            ] + tokens_from(s, pi))
        }),
{
    let a = kw_select() + seq![' '];
    let l = exprs_text(q.select);
    let f = seq![' '] + kw_from() + seq![' '];
    lemma_text_at_split(s, 0, a + l, f);
    lemma_text_at_split(s, 0, a, l);
    let pl: int = 7;
    let pf: int = pl + l.len();
    lemma_text_at_split(s, 0, kw_select(), seq![' ']);
    lemma_text_at_char(s, 6, seq![' '], 0);
    lemma_keyword_words();
    lemma_scan_keyword(s, 0, kw_select(), Tok::Select);
    lemma_tokens_space(s, 6);
    lemma_text_at_char(s, pf, f, 0);
    lemma_text_at_char(s, pf, f, 5);
    lemma_scan_list(q.select, s, pl);
    lemma_text_at_split(s, pf, seq![' '] + kw_from(), seq![' ']);
    lemma_scan_space_keyword(s, pf, kw_from(), Tok::From);
    lemma_tokens_space(s, pf + 5);
}

/// The tail of a query's text, from the source name on, scans to the
/// name's token and the clauses' tokens.
proof fn lemma_scan_query_tail(q: QueryV, s: Seq<char>, pi: int)
    requires
        text_at(s, pi, identifier_text(q.from) + (where_text(q.condition) + (group_text(q.group) + order_text(q.order)))),
        pi + (identifier_text(q.from) + (where_text(q.condition) + (group_text(q.group) + order_text(q.order)))).len() == s.len(),
    ensures
        tokens_from(s, pi) == seq![Ok::<Tok, ScanError>(Tok::Identifier(q.from))] + (oks(where_tokens(q.condition)) + (oks(
            group_tokens(q.group),
        ) + (oks(order_clause_tokens(q.order)) + Seq::<Result<Tok, ScanError>>::empty()))),
{
    let i = identifier_text(q.from);
    let w = where_text(q.condition);
    let g = group_text(q.group);
    let o = order_text(q.order);
    lemma_text_at_split(s, pi, i, w + (g + o));
    let pw: int = pi + i.len();
    lemma_text_at_split(s, pw, w, g + o);
    let pg: int = pw + w.len();
    lemma_text_at_split(s, pg, g, o);
    let po: int = pg + g.len();
    lemma_clause_texts_start(q);
    lemma_boundary_before(s, pw, w + (g + o));
    if w.len() == 0 && g.len() > 0 {
        assert((w + (g + o))[0] == g[0]);
    } else if w.len() == 0 && g.len() == 0 && o.len() > 0 {
        assert((w + (g + o))[0] == o[0]);
    } else if w.len() > 0 {
        assert((w + (g + o))[0] == w[0]);
    }
    lemma_scan_identifier(s, pi, q.from);
    lemma_tokens_step(s, pi, Tok::Identifier(q.from), pw);
    lemma_boundary_before(s, pg, g + o);
    if g.len() == 0 && o.len() > 0 {
        assert((g + o)[0] == o[0]);
    } else if g.len() > 0 {
        assert((g + o)[0] == g[0]);
    }
    lemma_boundary_before(s, po, o);
    lemma_scan_where_clause(q.condition, s, pw);
    lemma_scan_group_clause(q.group, s, pg);
    lemma_scan_order_clause(q.order, s, po);
    lemma_tokens_end(s);
}

/// The canonical text of a query scans to the query's tokens.
pub proof fn lemma_scan_query_text(q: QueryV)
    requires
        q.select.len() > 0,
    ensures
        tokens(query_text(q)) == oks(query_tokens(q)),
{
    let s = query_text(q);
    let head = (kw_select() + seq![' ']) + exprs_text(q.select) + (seq![' '] + kw_from() + seq![' ']);
    let tail = identifier_text(q.from) + (where_text(q.condition) + (group_text(q.group) + order_text(q.order)));
    lemma_query_text_shape(q);
    assert(s =~= head + tail);
    assert(s.subrange(0, s.len() as int) =~= s);
    lemma_text_at_split(s, 0, head, tail);
    assert(head.len() == 13 + exprs_text(q.select).len() as int);
    lemma_scan_query_head(q, s);
    lemma_scan_query_tail(q, s, head.len() as int);
    lemma_query_tokens_oks(q);
    assert(tokens(s) =~= oks(query_tokens(q)));
}

proof fn lemma_query_tokens_oks(q: QueryV)
    ensures
        oks(query_tokens(q)) == seq![Ok::<Tok, ScanError>(Tok::Select)] + oks(list_tokens(q.select)) + seq![
            Ok::<Tok, ScanError>(Tok::From),
            Ok::<Tok, ScanError>(Tok::Identifier(q.from)),
        ] + (oks(where_tokens(q.condition)) + (oks(group_tokens(q.group)) + (oks(
            order_clause_tokens(q.order),
        ) + Seq::<Result<Tok, ScanError>>::empty()))),
{
    assert(oks(query_tokens(q)) =~= seq![Ok::<Tok, ScanError>(Tok::Select)] + oks(list_tokens(q.select)) + seq![
            Ok::<Tok, ScanError>(Tok::From),
            Ok::<Tok, ScanError>(Tok::Identifier(q.from)),
        ] + (oks(where_tokens(q.condition)) + (oks(group_tokens(q.group)) + (oks(
            order_clause_tokens(q.order),
        ) + Seq::<Result<Tok, ScanError>>::empty()))));
}

/// The canonical text of a query that can be written parses back to the
/// query: `parse(q.to_string())` gives `q` again.
pub proof fn lemma_canonical_text_round_trip(q: QueryV)
    requires
        query_wf(q),
    ensures
        parse_text(query_text(q)) == Ok::<QueryV, ParseErr>(q),
{
    lemma_scan_query_text(q);
    lemma_parse_query_tokens(q);
}

/// A query parsed from a text without errors is written by its canonical
/// text, which parses back to the same query.
pub proof fn lemma_parsed_query_round_trip(t: Seq<char>)
    requires
        parse_text(t) is Ok,
    ensures
        parse_text(query_text(parse_text(t)->Ok_0)) == parse_text(t),
{
    crate::canonical::lemma_parsed_query_wf(tokens(t), 0);
    lemma_canonical_text_round_trip(parse_text(t)->Ok_0);
}

} // verus!

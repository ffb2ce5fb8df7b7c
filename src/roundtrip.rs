use vstd::prelude::*;

use crate::form::{operator_text, print_form, print_items, AtomView, FormView};
use crate::lexer::{
    is_separator, is_symbol_char, lemma_lexeme_end, lemma_run_end, lemma_sep_end,
    lemma_string_end, lexeme_end,
    lexemes, run_end, sep_end, string_end, tokens_from,
};
use crate::reader::{parse_form, parse_list, reader_tokens};
use crate::token::{
    backslashes_before, operator_of, special_of, string_is_closed, token_of, Special, TokenView,
};

verus! {

/// A literal that reads back as one symbol: symbol characters only, not
/// starting with a punctuation mark or an operator.
pub open spec fn symbol_literal(x: Seq<char>) -> bool {
    &&& x.len() > 0
    &&& forall|j: int| 0 <= j < x.len() ==> is_symbol_char(#[trigger] x[j])
    &&& special_of(x[0]) is None
    &&& operator_of(x[0]) is None
}

/// A literal that reads back as one closed string: its scan from the opening
/// quote closes at its last character.
pub open spec fn string_literal(x: Seq<char>) -> bool {
    x.len() >= 2 && x[0] == '"' && string_end(x, 1) == (x.len() as int, true)
}

/// An atom whose printed text reads back as the same atom.
pub open spec fn printable_atom(a: AtomView) -> bool {
    match a {
        AtomView::Operator(_) => true,
        AtomView::Literal(x) => symbol_literal(x) || string_literal(x),
    }
}

/// Every atom of the form reads back as itself once printed.
pub open spec fn printable(f: FormView) -> bool
    decreases f,
{
    match f {
        FormView::Atom(a) => printable_atom(a),
        FormView::List(items) => forall|i: int| 0 <= i < items.len() ==> printable(#[trigger] items[i]),
    }
}

/// The tokens that the printed text of a form lexes to.
pub open spec fn form_tokens(f: FormView) -> Seq<TokenView>
    decreases f, 0int,
{
    match f {
        FormView::Atom(AtomView::Operator(o)) => seq![TokenView::Operator(o)],
        FormView::Atom(AtomView::Literal(x)) => if x.len() > 0 && x[0] == '"' {
            seq![TokenView::String { contents: x.subrange(1, x.len() - 1), closed: true }]
        } else {
            seq![TokenView::Nonspecials(x)]
        },
        FormView::List(items) => seq![TokenView::Special(Special::OpenParen)] + span_tokens(
            items,
            0,
            items.len() as int,
        ) + seq![TokenView::Special(Special::CloseParen)],
    }
}

/// The tokens of the forms `items[k..n]`.
pub open spec fn span_tokens(items: Seq<FormView>, k: int, n: int) -> Seq<TokenView>
    decreases items, n - k,
{
    if k < 0 || n > items.len() || n <= k {
        seq![]
    } else {
        span_tokens(items, k, n - 1) + form_tokens(items[n - 1])
    }
}

/// A token that a real input can give: symbols and closed strings read back.
pub open spec fn good_token(t: TokenView) -> bool {
    match t {
        TokenView::Nonspecials(x) => symbol_literal(x),
        TokenView::String { contents, closed } => !closed || string_literal(
            seq!['"'] + contents + seq!['"'],
        ),
        _ => true,
    }
}

/// Whether a token is a string whose closing quote is missing.
pub open spec fn is_unclosed_string(t: TokenView) -> bool {
    t is String && !t->String_closed
}

/// The tokens of a span of forms, split off at the front.
proof fn lemma_span_cons(items: Seq<FormView>, k: int, n: int)
    requires
        0 <= k < n <= items.len(),
    ensures
        span_tokens(items, k, n) == form_tokens(items[k]) + span_tokens(items, k + 1, n),
    decreases n - k,
{
    if n == k + 1 {
        assert(span_tokens(items, k, k) == Seq::<TokenView>::empty());
        assert(span_tokens(items, k + 1, n) == Seq::<TokenView>::empty());
        assert(span_tokens(items, k, n) =~= form_tokens(items[k]));
    } else {
        lemma_span_cons(items, k, n - 1);
        assert(span_tokens(items, k, n) =~= form_tokens(items[k]) + span_tokens(items, k + 1, n));
    }
}

/// A form's tokens are never empty and never start with a close parenthesis.
proof fn lemma_form_tokens_start(f: FormView)
    ensures
        form_tokens(f).len() > 0,
        form_tokens(f)[0] != TokenView::Special(Special::CloseParen),
{
}

/// Parsing the tokens of a printable form gives the form back.
proof fn lemma_parse_form_tokens(f: FormView, rest: Seq<TokenView>)
    requires
        printable(f),
    ensures
        parse_form(form_tokens(f) + rest) == (Some(f), rest),
    decreases f, 0int,
{
    let ts = form_tokens(f) + rest;
    match f {
        FormView::Atom(a) => {
            assert(ts.drop_first() =~= rest);
            match a {
                AtomView::Operator(_) => {},
                AtomView::Literal(x) => {
                    if x.len() > 0 && x[0] == '"' {
                        assert(x[x.len() - 1] == '"') by {
                            lemma_string_end_closes(x, 1);
                        }
                        assert(seq!['"'] + x.subrange(1, x.len() - 1) + seq!['"'] =~= x);
                    }
                },
            }
        },
        FormView::List(items) => {
            let close = seq![TokenView::Special(Special::CloseParen)];
            let inner = span_tokens(items, 0, items.len() as int);
            assert(ts.drop_first() =~= inner + (close + rest));
            lemma_parse_span(items, 0, close + rest);
            assert(items.subrange(0, items.len() as int) =~= items);
            assert((close + rest).drop_first() =~= rest);
        },
    }
}

/// Parsing the tokens of printable forms `items[k..]` up to a close parenthesis
/// gives those forms back.
proof fn lemma_parse_span(items: Seq<FormView>, k: int, tail: Seq<TokenView>)
    requires
        0 <= k <= items.len(),
        forall|i: int| 0 <= i < items.len() ==> printable(#[trigger] items[i]),
        tail.len() > 0 && tail[0] == TokenView::Special(Special::CloseParen),
    ensures
        parse_list(span_tokens(items, k, items.len() as int) + tail) == (
        Some(items.subrange(k, items.len() as int)),
        tail,
        ),
    decreases items, items.len() - k,
{
    let n = items.len() as int;
    if k == n {
        assert(span_tokens(items, k, n) + tail =~= tail);
        assert(items.subrange(k, n) =~= Seq::<FormView>::empty());
    } else {
        lemma_span_cons(items, k, n);
        let ft = form_tokens(items[k]);
        let after = span_tokens(items, k + 1, n) + tail;
        let ts = span_tokens(items, k, n) + tail;
        assert(ts =~= ft + after);
        lemma_form_tokens_start(items[k]);
        lemma_parse_form_tokens(items[k], after);
        lemma_parse_span(items, k + 1, tail);
        assert(seq![items[k]] + items.subrange(k + 1, n) =~= items.subrange(k, n));
    }
}

/// A string scan that closes ends just past a quote.
proof fn lemma_string_end_closes(x: Seq<char>, j: int)
    requires
        0 <= j,
        string_end(x, j).1,
    ensures
        j < string_end(x, j).0 <= x.len(),
        x[string_end(x, j).0 - 1] == '"',
    decreases x.len() - j,
{
    if j < x.len() && x[j] != '"' {
        if x[j] == '\\' {
            if j + 1 < x.len() {
                lemma_string_end_closes(x, j + 2);
            }
        } else {
            lemma_string_end_closes(x, j + 1);
        }
    }
}

/// A string scan that closes inside a copy of `x` in `s` closes at the same place.
proof fn lemma_string_end_local(x: Seq<char>, s: Seq<char>, i: int, j: int)
    requires
        0 <= i,
        0 <= j,
        i + x.len() <= s.len(),
        s.subrange(i, i + x.len()) == x,
        string_end(x, j).1,
    ensures
        string_end(s, i + j) == (i + string_end(x, j).0, true),
    decreases x.len() - j,
{
    lemma_string_end_closes(x, j);
    assert(s[i + j] == x[j]);
    if x[j] != '"' {
        if x[j] == '\\' {
            assert(s[i + j + 1] == x[j + 1]);
            lemma_string_end_local(x, s, i, j + 2);
        } else {
            lemma_string_end_local(x, s, i, j + 1);
        }
    }
}

/// A run of symbol characters followed by a non-symbol ends there.
proof fn lemma_run_end_at(s: Seq<char>, i: int, k: int)
    requires
        0 <= i <= k <= s.len(),
        forall|j: int| i <= j < k ==> is_symbol_char(#[trigger] s[j]),
        k == s.len() || !is_symbol_char(s[k]),
    ensures
        run_end(s, i) == k,
    decreases k - i,
{
    if i < k {
        lemma_run_end_at(s, i + 1, k);
    }
}

/// Tokens from a position that holds no separator: the lexeme there, then the rest.
proof fn lemma_tokens_from_step(s: Seq<char>, i: int)
    requires
        0 <= i < s.len(),
        !is_separator(s[i]),
    ensures
        tokens_from(s, i) == seq![token_of(s.subrange(i, lexeme_end(s, i)))] + tokens_from(
            s,
            lexeme_end(s, i),
        ),
{
    lemma_lexeme_end(s, i);
    assert(sep_end(s, i) == i);
    assert(lexemes(s, i) == seq![(i, lexeme_end(s, i))] + lexemes(s, lexeme_end(s, i)));
    assert(tokens_from(s, i) =~= seq![token_of(s.subrange(i, lexeme_end(s, i)))] + tokens_from(
        s,
        lexeme_end(s, i),
    ));
}

/// A separator adds no token.
proof fn lemma_tokens_from_skip(s: Seq<char>, i: int)
    requires
        0 <= i < s.len(),
        is_separator(s[i]),
    ensures
        tokens_from(s, i) == tokens_from(s, i + 1),
{
    assert(sep_end(s, i) == sep_end(s, i + 1));
    assert(lexemes(s, i) == lexemes(s, i + 1));
}

/// At the end of the input only the empty end marker is left.
proof fn lemma_tokens_from_end(s: Seq<char>)
    ensures
        tokens_from(s, s.len() as int) == seq![TokenView::Nonspecials(Seq::<char>::empty())],
{
    assert(sep_end(s, s.len() as int) == s.len());
    assert(lexemes(s, s.len() as int) == seq![(s.len() as int, s.len() as int)]);
    assert(s.subrange(s.len() as int, s.len() as int) =~= Seq::<char>::empty());
    assert(tokens_from(s, s.len() as int) =~= seq![TokenView::Nonspecials(Seq::<char>::empty())]);
}

/// The lexeme at a non-separator position of a real input gives a good token.
proof fn lemma_lexeme_token_good(s: Seq<char>, st: int)
    requires
        0 <= st < s.len(),
        !is_separator(s[st]),
    ensures
        good_token(token_of(s.subrange(st, lexeme_end(s, st)))),
{
    lemma_lexeme_end(s, st);
    let en = lexeme_end(s, st);
    let lex = s.subrange(st, en);
    assert(lex[0] == s[st]);
    match token_of(lex) {
        TokenView::Nonspecials(x) => {
            assert(x == lex);
            if s[st] == '~' && st + 1 < s.len() && s[st + 1] == '@' {
                assert(special_of(lex[0]) is Some);
            }
            lemma_run_end(s, st);
            assert(en == run_end(s, st));
            assert forall|j: int| 0 <= j < x.len() implies is_symbol_char(#[trigger] x[j]) by {
                assert(x[j] == s[st + j]);
            }
        },
        TokenView::String { contents, closed } => {
            if closed {
                assert(s[st] == '"');
                lemma_string_end(s, st + 1);
                let c = string_end(s, st + 1).1;
                if !c {
                    let k = s.len() - 1;
                    lemma_backslashes_local(s, st, en, lex.len() - 1);
                    assert(lex[lex.len() - 1] == s[k]);
                    lemma_unescaped_quote_closes(s, st + 1, k);
                }
                lemma_string_end_local_rev(s, st, en, 1);
                assert(seq!['"'] + contents + seq!['"'] =~= lex);
            }
        },
        _ => {},
    }
}

/// Every token of a real input but the final end marker is good.
proof fn lemma_tokens_good(s: Seq<char>, i: int)
    requires
        0 <= i <= s.len(),
    ensures
        forall|k: int|
            0 <= k < tokens_from(s, i).len() - 1 ==> good_token(#[trigger] tokens_from(s, i)[k]),
    decreases s.len() - i,
{
    lemma_sep_end(s, i);
    let st = sep_end(s, i);
    if st < s.len() {
        lemma_lexeme_end(s, st);
        let en = lexeme_end(s, st);
        assert(lexemes(s, i) == seq![(st, en)] + lexemes(s, en));
        let t = token_of(s.subrange(st, en));
        assert(tokens_from(s, i) =~= seq![t] + tokens_from(s, en));
        lemma_lexeme_token_good(s, st);
        lemma_tokens_good(s, en);
        assert forall|k: int| 0 <= k < tokens_from(s, i).len() - 1 implies good_token(
            #[trigger] tokens_from(s, i)[k],
        ) by {
            if k > 0 {
                assert(tokens_from(s, i)[k] == tokens_from(s, en)[k - 1]);
            }
        }
    }
}

/// Reading good tokens without unterminated strings gives printable forms.
proof fn lemma_parse_printable(ts: Seq<TokenView>)
    requires
        forall|k: int|
            0 <= k < ts.len() ==> good_token(#[trigger] ts[k]) && !is_unclosed_string(ts[k]),
    ensures
        parse_form(ts).0 is Some ==> printable(parse_form(ts).0->0),
        parse_list(ts).0 is Some ==> forall|i: int|
            0 <= i < parse_list(ts).0->0.len() ==> printable(#[trigger] parse_list(ts).0->0[i]),
    decreases ts.len(),
{
    crate::reader::lemma_parse_consumes(ts);
    if ts.len() > 0 {
        let tail = ts.drop_first();
        assert forall|k: int| 0 <= k < tail.len() implies good_token(#[trigger] tail[k])
            && !is_unclosed_string(tail[k]) by {
            assert(tail[k] == ts[k + 1]);
        }
        lemma_parse_printable(tail);
        assert(good_token(ts[0]) && !is_unclosed_string(ts[0]));
        if !crate::reader::is_close_paren(ts[0]) {
            let rest = parse_form(ts).1;
            if rest.len() < ts.len() {
                assert forall|k: int| 0 <= k < rest.len() implies good_token(#[trigger] rest[k])
                    && !is_unclosed_string(rest[k]) by {
                    assert(rest[k] == ts[ts.len() - rest.len() + k]);
                }
                lemma_parse_printable(rest);
                if parse_list(ts).0 is Some {
                    let f = parse_form(ts).0->0;
                    let m = parse_list(rest).0->0;
                    assert(parse_list(ts).0->0 == seq![f] + m);
                    assert forall|i: int| 0 <= i < parse_list(ts).0->0.len() implies printable(
                        #[trigger] parse_list(ts).0->0[i],
                    ) by {
                        if i > 0 {
                            assert(parse_list(ts).0->0[i] == m[i - 1]);
                        }
                    }
                }
            }
        }
    }
}

/// Printing a form read from an input and reading the text back gives the
/// same form, when the input holds exactly one form, no list is left open and
/// no string is left unterminated.
pub proof fn lemma_read_print_round_trip(s: Seq<char>)
    requires
        parse_form(reader_tokens(s)).0 is Some,
        parse_form(reader_tokens(s)).1.len() == 0,
        forall|k: int|
            0 <= k < reader_tokens(s).len() ==> !is_unclosed_string(#[trigger] reader_tokens(s)[k]),
    ensures
        parse_form(reader_tokens(print_form(parse_form(reader_tokens(s)).0->0))) == (
        parse_form(reader_tokens(s)).0,
        Seq::<TokenView>::empty(),
        ),
{
    let ts = reader_tokens(s);
    let f = parse_form(ts).0->0;
    lemma_tokens_good(s, 0);
    assert forall|k: int| 0 <= k < ts.len() implies good_token(#[trigger] ts[k])
        && !is_unclosed_string(ts[k]) by {
        assert(ts[k] == tokens_from(s, 0)[k]);
    }
    lemma_parse_printable(ts);
    let p = print_form(f);
    assert(p.subrange(0, p.len() as int) =~= p);
    lemma_lex_form(f, p, 0);
    lemma_tokens_from_end(p);
    assert(reader_tokens(p) =~= form_tokens(f) + Seq::<TokenView>::empty());
    lemma_parse_form_tokens(f, Seq::<TokenView>::empty());
}

/// A backslash run inside a lexeme that opens with a quote is the same run in
/// the input.
proof fn lemma_backslashes_local(s: Seq<char>, st: int, en: int, m: int)
    requires
        0 <= st < en <= s.len(),
        s[st] == '"',
        1 <= m <= en - st,
    ensures
        backslashes_before(s.subrange(st, en), m) == backslashes_before(s, st + m),
    decreases m,
{
    assert(s.subrange(st, en)[0] == s[st]);
    if m > 1 {
        assert(s.subrange(st, en)[m - 1] == s[st + m - 1]);
        lemma_backslashes_local(s, st, en, m - 1);
    }
}

/// A scan from an unescaped position closes at the latest at an unescaped quote.
proof fn lemma_unescaped_quote_closes(s: Seq<char>, j: int, k: int)
    requires
        0 <= j <= k < s.len(),
        backslashes_before(s, j) % 2 == 0,
        s[k] == '"',
        backslashes_before(s, k) % 2 == 0,
    ensures
        string_end(s, j).1,
    decreases k - j,
{
    if j < k && s[j] != '"' {
        if s[j] == '\\' {
            if j + 1 == k {
                assert(backslashes_before(s, k) == 1 + backslashes_before(s, j));
            } else {
                if s[j + 1] == '\\' {
                    assert(backslashes_before(s, j + 1) == 1 + backslashes_before(s, j));
                    assert(backslashes_before(s, j + 2) == 1 + backslashes_before(s, j + 1));
                }
                lemma_unescaped_quote_closes(s, j + 2, k);
            }
        } else {
            lemma_unescaped_quote_closes(s, j + 1, k);
        }
    }
}

/// A scan from an unescaped position that closes at the end closes on a quote
/// that no backslash escapes.
proof fn lemma_scan_closed_is_closed(x: Seq<char>, j: int)
    requires
        1 <= j,
        x.len() >= 2,
        backslashes_before(x, j) % 2 == 0,
        string_end(x, j) == (x.len() as int, true),
    ensures
        string_is_closed(x),
    decreases x.len() - j,
{
    if x[j] != '"' {
        if x[j] == '\\' {
            if x[j + 1] == '\\' {
                assert(backslashes_before(x, j + 1) == 1 + backslashes_before(x, j));
                assert(backslashes_before(x, j + 2) == 1 + backslashes_before(x, j + 1));
            }
            lemma_scan_closed_is_closed(x, j + 2);
        } else {
            lemma_scan_closed_is_closed(x, j + 1);
        }
    }
}

/// A scan that closes inside `s[st..en]` closes at the same place in that lexeme.
proof fn lemma_string_end_local_rev(s: Seq<char>, st: int, en: int, j: int)
    requires
        0 <= st,
        1 <= j,
        st + j <= en <= s.len(),
        string_end(s, st + j) == (en, true),
    ensures
        string_end(s.subrange(st, en), j) == (en - st, true),
    decreases en - st - j,
{
    let x = s.subrange(st, en);
    lemma_string_end_closes(s, st + j);
    assert(x[j] == s[st + j]);
    if s[st + j] != '"' {
        if s[st + j] == '\\' {
            lemma_string_end(s, st + j + 2);
            lemma_string_end_local_rev(s, st, en, j + 2);
        } else {
            lemma_string_end(s, st + j + 1);
            lemma_string_end_local_rev(s, st, en, j + 1);
        }
    }
}

/// Whether position `k` of `s` ends a printed form: the end, a space or a
/// close parenthesis.
pub open spec fn boundary(s: Seq<char>, k: int) -> bool {
    k == s.len() || (0 <= k < s.len() && (s[k] == ' ' || s[k] == ')'))
}

/// The printed text of a printable form, standing in `s` at `i` before a space,
/// a close parenthesis or the end, lexes to the form's tokens.
proof fn lemma_lex_form(f: FormView, s: Seq<char>, i: int)
    requires
        printable(f),
        0 <= i,
        i + print_form(f).len() <= s.len(),
        s.subrange(i, i + print_form(f).len()) == print_form(f),
        boundary(s, i + print_form(f).len()),
    ensures
        tokens_from(s, i) == form_tokens(f) + tokens_from(s, i + print_form(f).len()),
    decreases f, 0int,
{
    let p = print_form(f);
    let e = i + p.len();
    assert forall|j: int| 0 <= j < p.len() implies s[i + j] == #[trigger] p[j] by {
        assert(s.subrange(i, e)[j] == s[i + j]);
    }
    match f {
        FormView::Atom(AtomView::Operator(o)) => {
            assert(p == operator_text(o));
            assert(s[i] == p[0]);
            lemma_run_end_at(s, i, e);
            lemma_tokens_from_step(s, i);
            assert(s.subrange(i, e) =~= p);
        },
        FormView::Atom(AtomView::Literal(x)) => {
            assert(s[i] == x[0]);
            if symbol_literal(x) {
                assert(!is_separator(s[i]));
                assert forall|j: int| i <= j < e implies is_symbol_char(#[trigger] s[j]) by {
                    assert(s[j] == x[j - i]);
                }
                lemma_run_end_at(s, i, e);
                lemma_tokens_from_step(s, i);
                assert(x != seq!['~', '@']) by {
                    if x == seq!['~', '@'] {
                        assert(x[0] == '~');
                    }
                }
            } else {
                lemma_string_end_local(x, s, i, 1);
                lemma_scan_closed_is_closed(x, 1);
                lemma_tokens_from_step(s, i);
                assert(x != seq!['~', '@']) by {
                    if x == seq!['~', '@'] {
                        assert(x[0] == '~');
                    }
                }
            }
        },
        FormView::List(items) => {
            let n = items.len() as int;
            let q = print_items(items, n as nat);
            assert(p == seq!['('] + q + seq![')']);
            assert(p[0] == '(');
            assert(s[i + 0] == p[0]);
            lemma_tokens_from_step(s, i);
            assert(s.subrange(i, i + 1) =~= seq!['(']);
            assert(s[i + 1 + q.len()] == p[1 + q.len() as int]);
            assert(s.subrange(i + 1, i + 1 + q.len()) =~= q) by {
                assert forall|j: int| 0 <= j < q.len() implies s.subrange(
                    i + 1,
                    i + 1 + q.len(),
                )[j] == q[j] by {
                    assert(s[i + 1 + j] == p[1 + j]);
                }
            }
            lemma_lex_items(items, n as nat, s, i + 1);
            let c = i + 1 + q.len();
            lemma_tokens_from_step(s, c);
            assert(s.subrange(c, c + 1) =~= seq![')']);
            assert(form_tokens(f) + tokens_from(s, e) =~= seq![
                TokenView::Special(Special::OpenParen),
            ] + (span_tokens(items, 0, n) + (seq![TokenView::Special(Special::CloseParen)]
                + tokens_from(s, e))));
        },
    }
}

/// The printed text of the first `n` of some printable forms, standing in `s`
/// at `i` before a space, a close parenthesis or the end, lexes to their tokens.
proof fn lemma_lex_items(items: Seq<FormView>, n: nat, s: Seq<char>, i: int)
    requires
        n <= items.len(),
        forall|k: int| 0 <= k < items.len() ==> printable(#[trigger] items[k]),
        0 <= i,
        i + print_items(items, n).len() <= s.len(),
        s.subrange(i, i + print_items(items, n).len()) == print_items(items, n),
        boundary(s, i + print_items(items, n).len()),
    ensures
        tokens_from(s, i) == span_tokens(items, 0, n as int) + tokens_from(
            s,
            i + print_items(items, n).len(),
        ),
    decreases items, n,
{
    let q = print_items(items, n);
    if n == 0 {
        assert(span_tokens(items, 0, 0) =~= Seq::<TokenView>::empty());
        assert(tokens_from(s, i) =~= span_tokens(items, 0, 0) + tokens_from(s, i));
    } else if n == 1 {
        lemma_lex_form(items[0], s, i);
        assert(span_tokens(items, 0, 0) =~= Seq::<TokenView>::empty());
        assert(span_tokens(items, 0, 1) =~= form_tokens(items[0]));
    } else {
        let q1 = print_items(items, (n - 1) as nat);
        let last = print_form(items[n - 1]);
        assert(q == q1 + seq![' '] + last);
        let m = i + q1.len();
        assert forall|j: int| 0 <= j < q.len() implies s[i + j] == #[trigger] q[j] by {
            assert(s.subrange(i, i + q.len())[j] == s[i + j]);
        }
        assert(s.subrange(i, m) =~= q1) by {
            assert forall|j: int| 0 <= j < q1.len() implies s.subrange(i, m)[j] == q1[j] by {
                assert(s[i + j] == q[j]);
            }
        }
        assert(s[m] == q[q1.len() as int]);
        assert(s.subrange(m + 1, m + 1 + last.len()) =~= last) by {
            assert forall|j: int| 0 <= j < last.len() implies s.subrange(
                m + 1,
                m + 1 + last.len(),
            )[j] == last[j] by {
                assert(s[m + 1 + j] == q[q1.len() as int + 1 + j]);
            }
        }
        lemma_lex_items(items, (n - 1) as nat, s, i);
        lemma_tokens_from_skip(s, m);
        lemma_lex_form(items[n - 1], s, m + 1);
        assert(span_tokens(items, 0, n as int) == span_tokens(items, 0, n - 1) + form_tokens(
            items[n - 1],
        ));
        assert(tokens_from(s, i) =~= span_tokens(items, 0, n as int) + tokens_from(s, i + q.len()));
    }
}

} // verus!

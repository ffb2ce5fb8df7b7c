use vstd::prelude::*;

use std::collections::VecDeque;

use crate::form::{print_form, Atom, AtomView, FormView, Type};
use crate::lexer::{tokenize, tokens_of};
use crate::token::{Special, Token, TokenView};

verus! {

broadcast use vstd::std_specs::vec::group_vec_axioms;

/// Whether a token opens a list.
pub open spec fn is_open_paren(t: TokenView) -> bool {
    t == TokenView::Special(Special::OpenParen)
}

/// Whether a token closes a list.
pub open spec fn is_close_paren(t: TokenView) -> bool {
    t == TokenView::Special(Special::CloseParen)
}

/// Whether a token sequence starts with a close parenthesis, which no form can start with.
pub open spec fn starts_with_close(ts: Seq<TokenView>) -> bool {
    ts.len() > 0 && is_close_paren(ts[0])
}

/// The atom that a token reads as; comments, the splice marker and punctuation give none.
pub open spec fn atom_of(t: TokenView) -> Option<AtomView> {
    match t {
        TokenView::Operator(o) => Some(AtomView::Operator(o)),
        TokenView::Nonspecials(s) => Some(AtomView::Literal(s)),
        TokenView::String { contents, closed } => Some(
            AtomView::Literal(
                if closed {
                    seq!['"'] + contents + seq!['"']
                } else {
                    seq!['"'] + contents + unbalanced_tag()
                },
            ),
        ),
        _ => None,
    }
}

/// The text appended to an unterminated string literal.
pub open spec fn unbalanced_tag() -> Seq<char> {
    seq!['u', 'n', 'b', 'a', 'l', 'a', 'n', 'c', 'e', 'd']
}

/// Reads one form from the front of `ts`: the form, if any, and the tokens left.
pub open spec fn parse_form(ts: Seq<TokenView>) -> (Option<FormView>, Seq<TokenView>)
    decreases ts.len(), 0nat,
{
    if ts.len() == 0 {
        (None, ts)
    } else if is_open_paren(ts[0]) {
        let (items, rest) = parse_list(ts.drop_first());
        match items {
            Some(items) => (Some(FormView::List(items)), rest.drop_first()),
            None => (None, rest),
        }
    } else {
        match atom_of(ts[0]) {
            Some(a) => (Some(FormView::Atom(a)), ts.drop_first()),
            None => (None, ts.drop_first()),
        }
    }
}

/// Reads forms from the front of `ts` up to a close parenthesis, which is left
/// in place: the forms, if the list is complete, and the tokens left.
pub open spec fn parse_list(ts: Seq<TokenView>) -> (Option<Seq<FormView>>, Seq<TokenView>)
    decreases ts.len(), 1nat,
{
    if ts.len() == 0 {
        (None, ts)
    } else if is_close_paren(ts[0]) {
        (Some(seq![]), ts)
    } else {
        let (first, rest) = parse_form(ts);
        match first {
            None => (None, rest),
            Some(f) => if rest.len() < ts.len() {
                let (more, rest2) = parse_list(rest);
                match more {
                    Some(m) => (Some(seq![f] + m), rest2),
                    None => (None, rest2),
                }
            } else {
                (None, rest)
            },
        }
    }
}

/// Reading never adds tokens, and reading a form from a non-empty sequence
/// consumes at least one.
pub proof fn lemma_parse_consumes(ts: Seq<TokenView>)
    ensures
        parse_form(ts).1.len() <= ts.len(),
        ts.len() > 0 ==> parse_form(ts).1.len() < ts.len(),
        parse_list(ts).1.len() <= ts.len(),
        parse_list(ts).0 is Some ==> starts_with_close(parse_list(ts).1),
        parse_form(ts).1 == ts.subrange(ts.len() - parse_form(ts).1.len(), ts.len() as int),
        parse_list(ts).1 == ts.subrange(ts.len() - parse_list(ts).1.len(), ts.len() as int),
    decreases ts.len(),
{
    if ts.len() == 0 {
        assert(ts.subrange(0, 0) =~= ts);
    } else {
        let tail = ts.drop_first();
        lemma_parse_consumes(tail);
        let inner = parse_list(tail).1;
        assert(inner == ts.subrange(ts.len() - inner.len(), ts.len() as int));
        if parse_list(tail).0 is Some {
            assert(inner.drop_first() =~= ts.subrange(ts.len() - inner.len() + 1, ts.len() as int));
        }
        assert(tail =~= ts.subrange(1, ts.len() as int));
        if !is_close_paren(ts[0]) {
            let rest = parse_form(ts).1;
            if rest.len() < ts.len() {
                lemma_parse_consumes(rest);
                let r2 = parse_list(rest).1;
                assert(r2 =~= ts.subrange(ts.len() - r2.len(), ts.len() as int));
            }
        } else {
            assert(ts.subrange(0, ts.len() as int) =~= ts);
        }
    }
}

/// A splice-unquote marker never becomes part of a form: reading from it
/// gives nothing and consumes just the marker.
pub proof fn lemma_splice_marker_reads_nothing(ts: Seq<TokenView>)
    ensures
        parse_form(seq![TokenView::Tat] + ts) == (None::<FormView>, ts),
{
    assert((seq![TokenView::Tat] + ts).drop_first() =~= ts);
}

/// Inside a list, a splice-unquote marker makes the whole list read give nothing.
pub proof fn lemma_splice_marker_in_list(ts: Seq<TokenView>)
    ensures
        parse_list(seq![TokenView::Tat] + ts).0 is None,
{
    lemma_splice_marker_reads_nothing(ts);
    assert((seq![TokenView::Tat] + ts)[0] == TokenView::Tat);
}

/// The atoms of a form, left to right.
pub open spec fn leaves(f: FormView) -> Seq<AtomView>
    decreases f, 0int,
{
    match f {
        FormView::Atom(a) => seq![a],
        FormView::List(items) => leaves_of(items, items.len() as int),
    }
}

/// The atoms of the first `n` forms of `items`, left to right.
pub open spec fn leaves_of(items: Seq<FormView>, n: int) -> Seq<AtomView>
    decreases items, n,
{
    if n <= 0 || n > items.len() {
        seq![]
    } else {
        leaves_of(items, n - 1) + leaves(items[n - 1])
    }
}

/// The atoms that the tokens give, in order, skipping those that give none.
pub open spec fn token_atoms(ts: Seq<TokenView>) -> Seq<AtomView>
    decreases ts.len(),
{
    if ts.len() == 0 {
        seq![]
    } else {
        match atom_of(ts[0]) {
            Some(a) => seq![a] + token_atoms(ts.drop_first()),
            None => token_atoms(ts.drop_first()),
        }
    }
}

/// A token that can stand in a form that was read: a parenthesis or one that gives an atom.
pub open spec fn readable(t: TokenView) -> bool {
    is_open_paren(t) || is_close_paren(t) || atom_of(t) is Some
}

/// The tokens that a read consumed: those before what it left.
pub open spec fn consumed(ts: Seq<TokenView>, rest: Seq<TokenView>) -> Seq<TokenView> {
    ts.subrange(0, ts.len() - rest.len())
}

/// The atoms of joined token sequences are the joined atoms.
proof fn lemma_token_atoms_concat(a: Seq<TokenView>, b: Seq<TokenView>)
    ensures
        token_atoms(a + b) == token_atoms(a) + token_atoms(b),
    decreases a.len(),
{
    if a.len() == 0 {
        assert(a + b =~= b);
        assert(token_atoms(a) + token_atoms(b) =~= token_atoms(b));
    } else {
        assert((a + b).drop_first() =~= a.drop_first() + b);
        lemma_token_atoms_concat(a.drop_first(), b);
        assert((a + b)[0] == a[0]);
        match atom_of(a[0]) {
            Some(x) => {
                assert(seq![x] + (token_atoms(a.drop_first()) + token_atoms(b)) =~= (seq![x]
                    + token_atoms(a.drop_first())) + token_atoms(b));
            },
            None => {},
        }
    }
}

/// The atoms of a single token.
proof fn lemma_token_atoms_single(t: TokenView)
    ensures
        token_atoms(seq![t]) == match atom_of(t) {
            Some(a) => seq![a],
            None => Seq::<AtomView>::empty(),
        },
{
    assert(seq![t].drop_first() =~= Seq::<TokenView>::empty());
    assert(token_atoms(Seq::<TokenView>::empty()) == Seq::<AtomView>::empty());
    assert(seq![t][0] == t);
    match atom_of(t) {
        Some(a) => {
            assert(seq![a] + Seq::<AtomView>::empty() =~= seq![a]);
        },
        None => {},
    }
}

/// The atoms of a list of forms, split off at the front.
proof fn lemma_leaves_of_cons(f: FormView, m: Seq<FormView>, k: int)
    requires
        0 <= k <= m.len(),
    ensures
        leaves_of(seq![f] + m, k + 1) == leaves(f) + leaves_of(m, k),
    decreases k,
{
    let x = seq![f] + m;
    if k == 0 {
        assert(leaves_of(x, 0) == Seq::<AtomView>::empty());
        assert(leaves_of(m, 0) == Seq::<AtomView>::empty());
        assert(x[0] == f);
        assert(leaves_of(x, 1) =~= leaves(f) + leaves_of(m, 0));
    } else {
        lemma_leaves_of_cons(f, m, k - 1);
        assert(x[k] == m[k - 1]);
        assert(leaves_of(x, k + 1) =~= leaves(f) + leaves_of(m, k));
    }
}

/// The leaves law for a form and for the rest of a list, together.
proof fn lemma_leaves_induct(ts: Seq<TokenView>)
    ensures
        parse_form(ts).0 is Some ==> {
            let c = consumed(ts, parse_form(ts).1);
            &&& leaves(parse_form(ts).0->0) == token_atoms(c)
            &&& forall|k: int| 0 <= k < c.len() ==> readable(#[trigger] c[k])
        },
        parse_list(ts).0 is Some ==> {
            let c = consumed(ts, parse_list(ts).1);
            let items = parse_list(ts).0->0;
            &&& leaves_of(items, items.len() as int) == token_atoms(c)
            &&& forall|k: int| 0 <= k < c.len() ==> readable(#[trigger] c[k])
        },
    decreases ts.len(),
{
    lemma_parse_consumes(ts);
    if ts.len() > 0 {
        let tail = ts.drop_first();
        lemma_parse_consumes(tail);
        lemma_leaves_induct(tail);
        let t0 = seq![ts[0]];
        if is_open_paren(ts[0]) {
            if parse_list(tail).0 is Some {
                let r = parse_list(tail).1;
                let ci = consumed(tail, r);
                let c = consumed(ts, r.drop_first());
                assert(c =~= t0 + ci + seq![r[0]]);
                lemma_token_atoms_single(ts[0]);
                lemma_token_atoms_single(r[0]);
                lemma_token_atoms_concat(t0, ci);
                lemma_token_atoms_concat(t0 + ci, seq![r[0]]);
                assert(token_atoms(c) =~= token_atoms(ci));
                assert forall|k: int| 0 <= k < c.len() implies readable(#[trigger] c[k]) by {
                    if 0 < k < c.len() - 1 {
                        assert(c[k] == ci[k - 1]);
                    }
                }
            }
        } else {
            if atom_of(ts[0]) is Some {
                let c = consumed(ts, tail);
                assert(c =~= t0);
                assert(t0.drop_first() =~= Seq::<TokenView>::empty());
                lemma_token_atoms_single(ts[0]);
            }
        }
        if !is_close_paren(ts[0]) {
            let rest = parse_form(ts).1;
            if rest.len() < ts.len() && parse_list(ts).0 is Some {
                lemma_parse_consumes(rest);
                lemma_leaves_induct(rest);
                let f = parse_form(ts).0->0;
                let m = parse_list(rest).0->0;
                let r2 = parse_list(rest).1;
                let cf = consumed(ts, rest);
                let cm = consumed(rest, r2);
                let c = consumed(ts, r2);
                assert(c =~= cf + cm);
                lemma_token_atoms_concat(cf, cm);
                lemma_leaves_of_cons(f, m, m.len() as int);
                assert(parse_list(ts).0->0 == seq![f] + m);
                assert forall|k: int| 0 <= k < c.len() implies readable(#[trigger] c[k]) by {
                    if k >= cf.len() {
                        assert(c[k] == cm[k - cf.len()]);
                    } else {
                        assert(c[k] == cf[k]);
                    }
                }
            }
        } else {
            let c = consumed(ts, ts);
            assert(c =~= Seq::<TokenView>::empty());
            assert(token_atoms(c) == Seq::<AtomView>::empty());
        }
    }
}

/// Reading a form consumes only parentheses and tokens that give atoms, and
/// the form's atoms are exactly the atoms of the consumed tokens, in order. So
/// a splice-unquote marker, a comment or other punctuation never becomes part
/// of a form.
pub proof fn lemma_form_leaves_come_from_atom_tokens(ts: Seq<TokenView>)
    ensures
        parse_form(ts).0 is Some ==> {
            let c = consumed(ts, parse_form(ts).1);
            &&& leaves(parse_form(ts).0->0) == token_atoms(c)
            &&& forall|k: int| 0 <= k < c.len() ==> readable(#[trigger] c[k])
        },
{
    lemma_leaves_induct(ts);
}

/// The tokens that the reader works on for `s`: those of `s` without the
/// empty symbol that marks the end of the input.
pub open spec fn reader_tokens(s: Seq<char>) -> Seq<TokenView> {
    tokens_of(s).drop_last()
}

/// The views of a sequence of forms.
pub open spec fn forms_view(v: Seq<Type>) -> Seq<FormView> {
    v.map_values(|t: Type| t@)
}

/// A queue of tokens that forms are read from, front to back.
pub struct Tokens {
    tokens: VecDeque<Token>,
}

impl View for Tokens {
    type V = Seq<TokenView>;

    closed spec fn view(&self) -> Seq<TokenView> {
        self.tokens@.map_values(|t: Token| t@)
    }
}

impl Tokens {
    /// Tokenizes `input` and makes a reader over its tokens.
    pub fn read_str(input: &str) -> (r: Self)
        ensures
            r@ == reader_tokens(input@),
    {
        let mut all = tokenize(input);
        proof {
            crate::lexer::lemma_tokens_nonempty(input@);
        }
        let ghost toks = reader_tokens(input@);
        let _end = all.pop();
        assert(all@.map_values(|t: Token| t@) =~= toks);
        let mut tokens: VecDeque<Token> = VecDeque::new();
        while all.len() > 0
            invariant
                all@.map_values(|t: Token| t@) + tokens@.map_values(|t: Token| t@) == toks,
            decreases all@.len(),
        {
            let ghost before_all = all@;
            let ghost before_tokens = tokens@;
            match all.pop() {
                Some(t) => {
                    tokens.push_front(t);
                    assert(before_all.map_values(|t: Token| t@) =~= all@.map_values(|t: Token| t@).push(t@));
                    assert(tokens@.map_values(|t: Token| t@) =~= seq![t@] + before_tokens.map_values(|t: Token| t@));
                },
                None => {},
            }
        }
        assert(all@.map_values(|t: Token| t@) =~= Seq::<TokenView>::empty());
        let r = Tokens { tokens };
        assert(r@ =~= reader_tokens(input@));
        r
    }

    /// The next token, left in place.
    pub fn peek(&self) -> (r: Option<&Token>)
        ensures
            match r {
                Some(t) => self@.len() > 0 && t@ == self@[0],
                None => self@.len() == 0,
            },
    {
        if self.tokens.len() == 0 {
            None
        } else {
            Some(&self.tokens[0])
        }
    }

    /// Removes and returns the next token.
    pub fn next(&mut self) -> (r: Option<Token>)
        ensures
            match r {
                Some(t) => old(self)@.len() > 0 && t@ == old(self)@[0] && final(self)@
                    == old(self)@.drop_first(),
                None => old(self)@.len() == 0 && final(self)@ == old(self)@,
            },
    {
        let r = self.tokens.pop_front();
        proof {
            if r is Some {
                assert(final(self)@ =~= old(self)@.drop_first());
            }
        }
        r
    }

    /// Reads one form: a list if the next token opens one, else an atom.
    /// Gives nothing when the tokens run out, when a list is left open, and
    /// when the token read carries no atom.
    pub fn read_form(&mut self) -> (r: Option<Type>)
        requires
            !starts_with_close(old(self)@),
        ensures
            match r {
                Some(f) => parse_form(old(self)@).0 == Some(f@),
                None => parse_form(old(self)@).0 is None,
            },
            final(self)@ == parse_form(old(self)@).1,
        decreases old(self)@.len(), 0nat,
    {
        let open = match self.peek() {
            None => return None,
            Some(Token::Special(Special::OpenParen)) => true,
            Some(_) => false,
        };
        if open {
            self.next();
            let ghost inner = self@;
            match self.read_list() {
                None => None,
                Some(items) => {
                    proof {
                        lemma_parse_consumes(inner);
                    }
                    self.next();
                    let ghost iv = items@;
                    let f = Type::List(items);
                    assert(f@->List_0 =~= forms_view(iv));
                    Some(f)
                },
            }
        } else {
            match self.read_atom() {
                None => None,
                Some(a) => Some(Type::Atom(a)),
            }
        }
    }

    /// Reads forms up to a close parenthesis, which is left in place. Gives
    /// nothing when the tokens run out first or a form inside gives nothing.
    fn read_list(&mut self) -> (r: Option<Vec<Type>>)
        ensures
            match r {
                Some(v) => parse_list(old(self)@).0 == Some(forms_view(v@)),
                None => parse_list(old(self)@).0 is None,
            },
            final(self)@ == parse_list(old(self)@).1,
        decreases old(self)@.len(), 1nat,
    {
        let ghost orig = self@;
        let mut out: Vec<Type> = Vec::new();
        loop
            invariant
                orig == old(self)@,
                self@.len() <= orig.len(),
                parse_list(orig).1 == parse_list(self@).1,
                match parse_list(self@).0 {
                    Some(m) => parse_list(orig).0 == Some(forms_view(out@) + m),
                    None => parse_list(orig).0 is None,
                },
            decreases self@.len(),
        {
            let close = match self.peek() {
                None => return None,
                Some(Token::Special(Special::CloseParen)) => true,
                Some(_) => false,
            };
            if close {
                assert(forms_view(out@) + seq![] =~= forms_view(out@));
                return Some(out);
            }
            let ghost cur = self@;
            proof {
                lemma_parse_consumes(cur);
            }
            match self.read_form() {
                None => return None,
                Some(f) => {
                    assert(forms_view(out@.push(f)) =~= forms_view(out@).push(f@));
                    proof {
                        let ghost m = parse_list(self@).0;
                        if m is Some {
                            assert(forms_view(out@) + (seq![f@] + m->0) =~= forms_view(
                                out@.push(f),
                            ) + m->0);
                        }
                    }
                    out.push(f);
                },
            }
        }
    }

    /// Reads the next token as an atom.
    fn read_atom(&mut self) -> (r: Option<Atom>)
        requires
            old(self)@.len() > 0 ==> !is_open_paren(old(self)@[0]) && !is_close_paren(
                old(self)@[0],
            ),
        ensures
            old(self)@.len() == 0 ==> r is None && final(self)@ == old(self)@,
            old(self)@.len() > 0 ==> final(self)@ == old(self)@.drop_first() && match r {
                Some(a) => atom_of(old(self)@[0]) == Some(a@),
                None => atom_of(old(self)@[0]) is None,
            },
    {
        proof {
            reveal_strlit("\"");
            reveal_strlit("unbalanced");
        }
        match self.next() {
            None => None,
            Some(Token::Operator(operator)) => Some(Atom::Operator(operator)),
            Some(Token::Nonspecials(contents)) => Some(Atom::Literal(contents)),
            Some(Token::String { contents, closed }) => {
                let mut text = String::new();
                text.append("\"");
                text.append(contents.as_str());
                if closed {
                    text.append("\"");
                } else {
                    text.append("unbalanced");
                }
                assert(text@ =~= atom_of(old(self)@[0])->0->Literal_0);
                Some(Atom::Literal(text))
            },
            Some(Token::Tat) | Some(Token::Comment(_)) => None,
            Some(Token::Special(_)) => None,
        }
    }

    /// Reads one form and prints it.
    pub fn pr_str(&mut self) -> (r: Option<String>)
        requires
            !starts_with_close(old(self)@),
        ensures
            match r {
                Some(s) => parse_form(old(self)@).0 is Some && s@ == print_form(
                    parse_form(old(self)@).0->0,
                ),
                None => parse_form(old(self)@).0 is None,
            },
            final(self)@ == parse_form(old(self)@).1,
    {
        match self.read_form() {
            None => None,
            Some(t) => Some(t.to_string()),
        }
    }
}

} // verus!

use vstd::prelude::*;

use crate::token::Operator;

verus! {

broadcast use vstd::std_specs::vec::group_vec_axioms;

/// A leaf of the syntax tree.
#[derive(Debug, Clone, PartialEq, Eq)]
pub enum Atom {
    Operator(Operator),
    Literal(String),
}

/// A parsed form: an atom, or a parenthesized list of forms.
#[derive(Debug, PartialEq, Eq)]
pub enum Type {
    Atom(Atom),
    List(Vec<Type>),
}

/// The mathematical value of an [`Atom`].
pub enum AtomView {
    Operator(Operator),
    Literal(Seq<char>),
}

/// The mathematical value of a [`Type`].
pub enum FormView {
    Atom(AtomView),
    List(Seq<FormView>),
}

impl View for Atom {
    type V = AtomView;

    open spec fn view(&self) -> AtomView {
        match self {
            Atom::Operator(o) => AtomView::Operator(*o),
            Atom::Literal(s) => AtomView::Literal(s@),
        }
    }
}

/// The view of a form, element by element.
pub open spec fn form_view(t: Type) -> FormView
    decreases t,
{
    match t {
        Type::Atom(a) => FormView::Atom(a@),
        Type::List(items) => FormView::List(
            Seq::new(
                items@.len(),
                |i: int|
                    if 0 <= i < items@.len() {
                        form_view(items@[i])
                    } else {
                        FormView::List(seq![])
                    },
            ),
        ),
    }
}

impl View for Type {
    type V = FormView;

    open spec fn view(&self) -> FormView {
        form_view(*self)
    }
}

/// The one-character text of an operator.
pub open spec fn operator_text(o: Operator) -> Seq<char> {
    match o {
        Operator::Add => seq!['+'],
        Operator::Sub => seq!['-'],
        Operator::Mul => seq!['*'],
        Operator::Div => seq!['/'],
    }
}

/// The printed text of an atom.
pub open spec fn print_atom(a: AtomView) -> Seq<char> {
    match a {
        AtomView::Operator(o) => operator_text(o),
        AtomView::Literal(s) => s,
    }
}

/// The printed text of a form: an atom verbatim, a list as its elements
/// separated by single spaces and wrapped in parentheses.
pub open spec fn print_form(f: FormView) -> Seq<char>
    decreases f, 0nat,
{
    match f {
        FormView::Atom(a) => print_atom(a),
        FormView::List(items) => seq!['('] + print_items(items, items.len()) + seq![')'],
    }
}

/// The first `n` forms of `items`, printed and separated by single spaces.
pub open spec fn print_items(items: Seq<FormView>, n: nat) -> Seq<char>
    decreases items, n,
{
    if n == 0 || n > items.len() {
        seq![]
    } else if n == 1 {
        print_form(items[0])
    } else {
        print_items(items, (n - 1) as nat) + seq![' '] + print_form(items[n - 1])
    }
}

impl Operator {
    /// The operator's symbol.
    pub fn to_str(&self) -> (r: &'static str)
        ensures
            r@ == operator_text(*self),
    {
        proof {
            reveal_strlit("+");
            reveal_strlit("-");
            reveal_strlit("*");
            reveal_strlit("/");
        }
        match self {
            Operator::Add => "+",
            Operator::Sub => "-",
            Operator::Mul => "*",
            Operator::Div => "/",
        }
    }
}

impl Atom {
    /// The atom's printed text.
    pub fn to_string(&self) -> (r: String)
        ensures
            r@ == print_atom(self@),
    {
        match self {
            Atom::Operator(o) => o.to_str().to_owned(),
            Atom::Literal(s) => s.clone(),
        }
    }
}

impl Type {
    /// The form's printed text.
    pub fn to_string(&self) -> (r: String)
        ensures
            r@ == print_form(self@),
    {
        let mut out = String::new();
        self.print_into(&mut out);
        assert(out@ =~= print_form(self@));
        out
    }

    fn print_into(&self, out: &mut String)
        ensures
            final(out)@ == old(out)@ + print_form(self@),
        decreases self,
    {
        match self {
            Type::Atom(a) => {
                let s = a.to_string();
                out.append(s.as_str());
            },
            Type::List(items) => {
                proof {
                    reveal_strlit("(");
                    reveal_strlit(")");
                    reveal_strlit(" ");
                }
                let ghost start = out@;
                let ghost views = self@->List_0;
                out.append("(");
                let mut i: usize = 0;
                while i < items.len()
                    invariant
                        i <= items@.len(),
                        self is List && self->List_0 == *items,
                        views.len() == items@.len(),
                        forall|k: int| 0 <= k < items@.len() ==> views[k] == #[trigger] items@[k]@,
                        out@ == start + seq!['('] + print_items(views, i as nat),
                    decreases items@.len() - i,
                {
                    proof {
                        reveal_strlit(" ");
                    }
                    if i > 0 {
                        out.append(" ");
                    }
                    proof {
                        assert(self->List_0 == *items);
                        assert(decreases_to!(self->List_0 => self->List_0[i as int]));
                    }
                    items[i].print_into(out);
                    proof {
                        assert(views[i as int] == items@[i as int]@);
                        assert(print_items(views, (i + 1) as nat) == print_items(views, i as nat)
                            + seq![' '] + print_form(views[i as int]) || i == 0);
                        if i == 0 {
                            assert(out@ =~= start + seq!['('] + print_items(views, 1));
                        } else {
                            assert(out@ =~= start + seq!['('] + print_items(views, (i + 1) as nat));
                        }
                    }
                    i += 1;
                }
                proof {
                    reveal_strlit(")");
                }
                out.append(")");
                assert(out@ =~= start + print_form(self@));
            },
        }
    }
}

} // verus!

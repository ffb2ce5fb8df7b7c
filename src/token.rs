use vstd::prelude::*;

use crate::lexer::chars_of;

verus! {

/// An arithmetic operator symbol.
#[derive(Debug, Clone, Copy, PartialEq, Eq, Structural)]
pub enum Operator {
    Add,
    Sub,
    Mul,
    Div,
}

/// A single punctuation character with a structural or marker meaning.
#[derive(Debug, Clone, Copy, PartialEq, Eq, Structural)]
pub enum Special {
    OpenBracket,
    CloseBracket,
    OpenBrace,
    CloseBrace,
    OpenParen,
    CloseParen,
    Tick,
    Backtick,
    Tilde,
    Caret,
    At,
}

/// A classified lexeme.
#[derive(Debug, Clone, PartialEq, Eq)]
pub enum Token {
    /// The two-character splice-unquote marker `~@`.
    Tat,
    /// A line comment, holding the text after the leading `;`.
    Comment(String),
    Special(Special),
    Operator(Operator),
    /// A double-quoted string; `closed` tells whether its terminating quote was found.
    String { contents: String, closed: bool },
    /// Any other lexeme, kept verbatim.
    Nonspecials(String),
}

/// The mathematical value of a [`Token`]: its text fields as character sequences.
pub enum TokenView {
    Tat,
    Comment(Seq<char>),
    Special(Special),
    Operator(Operator),
    String { contents: Seq<char>, closed: bool },
    Nonspecials(Seq<char>),
}

impl View for Token {
    type V = TokenView;

    open spec fn view(&self) -> TokenView {
        match self {
            Token::Tat => TokenView::Tat,
            Token::Comment(c) => TokenView::Comment(c@),
            Token::Special(s) => TokenView::Special(*s),
            Token::Operator(o) => TokenView::Operator(*o),
            Token::String { contents, closed } => TokenView::String {
                contents: contents@,
                closed: *closed,
            },
            Token::Nonspecials(t) => TokenView::Nonspecials(t@),
        }
    }
}

/// The operator that a character stands for, if any.
pub open spec fn operator_of(c: char) -> Option<Operator> {
    if c == '+' {
        Some(Operator::Add)
    } else if c == '-' {
        Some(Operator::Sub)
    } else if c == '*' {
        Some(Operator::Mul)
    } else if c == '/' {
        Some(Operator::Div)
    } else {
        None
    }
}

/// The punctuation mark that a character stands for, if any.
pub open spec fn special_of(c: char) -> Option<Special> {
    if c == '[' {
        Some(Special::OpenBracket)
    } else if c == ']' {
        Some(Special::CloseBracket)
    } else if c == '{' {
        Some(Special::OpenBrace)
    } else if c == '}' {
        Some(Special::CloseBrace)
    } else if c == '(' {
        Some(Special::OpenParen)
    } else if c == ')' {
        Some(Special::CloseParen)
    } else if c == '\'' {
        Some(Special::Tick)
    } else if c == '`' {
        Some(Special::Backtick)
    } else if c == '~' {
        Some(Special::Tilde)
    } else if c == '^' {
        Some(Special::Caret)
    } else if c == '@' {
        Some(Special::At)
    } else {
        None
    }
}

/// The length of the run of backslashes that stands just before position `k` of `x`.
pub open spec fn backslashes_before(x: Seq<char>, k: int) -> nat
    decreases k,
{
    if 0 < k <= x.len() && x[k - 1] == '\\' {
        1 + backslashes_before(x, k - 1)
    } else {
        0
    }
}

/// Whether a lexeme that starts with a quote ends with a closing quote, one that
/// no backslash escapes: the run of backslashes before it has even length.
pub open spec fn string_is_closed(lex: Seq<char>) -> bool {
    &&& lex.len() >= 2
    &&& lex[lex.len() - 1] == '"'
    &&& backslashes_before(lex, lex.len() - 1) % 2 == 0
}

/// The token that a lexeme classifies as: the first matching rule wins.
pub open spec fn token_of(lex: Seq<char>) -> TokenView {
    if lex.len() == 0 {
        TokenView::Nonspecials(lex)
    } else if lex == seq!['~', '@'] {
        TokenView::Tat
    } else if lex[0] == ';' {
        TokenView::Comment(lex.drop_first())
    } else if special_of(lex[0]) is Some {
        TokenView::Special(special_of(lex[0])->0)
    } else if operator_of(lex[0]) is Some {
        TokenView::Operator(operator_of(lex[0])->0)
    } else if lex[0] == '"' {
        if string_is_closed(lex) {
            TokenView::String { contents: lex.subrange(1, lex.len() - 1), closed: true }
        } else {
            TokenView::String { contents: lex.drop_first(), closed: false }
        }
    } else {
        TokenView::Nonspecials(lex)
    }
}

/// Counts the backslashes that stand just before position `k`.
fn count_backslashes_before(x: &Vec<char>, k: usize) -> (r: usize)
    requires
        k <= x@.len(),
    ensures
        r as nat == backslashes_before(x@, k as int),
{
    let mut j = k;
    let mut count: usize = 0;
    while j > 0 && x[j - 1] == '\\'
        invariant
            j <= k <= x@.len(),
            count + j == k,
            backslashes_before(x@, k as int) == count + backslashes_before(x@, j as int),
        decreases j,
    {
        j -= 1;
        count += 1;
    }
    count
}

impl Operator {
    /// The operator written as `c`, if `c` is one.
    pub fn try_from(c: char) -> (r: Option<Operator>)
        ensures
            r == operator_of(c),
    {
        match c {
            '+' => Some(Operator::Add),
            '-' => Some(Operator::Sub),
            '*' => Some(Operator::Mul),
            '/' => Some(Operator::Div),
            _ => None,
        }
    }
}

impl Special {
    /// The punctuation mark written as `c`, if `c` is one.
    pub fn try_from(c: char) -> (r: Option<Special>)
        ensures
            r == special_of(c),
    {
        match c {
            '[' => Some(Special::OpenBracket),
            ']' => Some(Special::CloseBracket),
            '{' => Some(Special::OpenBrace),
            '}' => Some(Special::CloseBrace),
            '(' => Some(Special::OpenParen),
            ')' => Some(Special::CloseParen),
            '\'' => Some(Special::Tick),
            '`' => Some(Special::Backtick),
            '~' => Some(Special::Tilde),
            '^' => Some(Special::Caret),
            '@' => Some(Special::At),
            _ => None,
        }
    }
}

impl Token {
    /// Classifies one lexeme.
    pub fn from_lexeme(lexeme: &str) -> (r: Token)
        ensures
            r@ == token_of(lexeme@),
    {
        let cs = chars_of(lexeme);
        let n = cs.len();
        if n == 0 {
            return Token::Nonspecials(lexeme.to_owned());
        }
        let first = cs[0];
        if n == 2 && first == '~' && cs[1] == '@' {
            assert(lexeme@ =~= seq!['~', '@']);
            return Token::Tat;
        }
        assert(lexeme@ != seq!['~', '@']) by {
            if lexeme@ == seq!['~', '@'] {
                assert(lexeme@[1] == '@');
            }
        }
        if first == ';' {
            return Token::Comment(lexeme.substring_char(1, n).to_owned());
        }
        if let Some(special) = Special::try_from(first) {
            return Token::Special(special);
        }
        if let Some(operator) = Operator::try_from(first) {
            return Token::Operator(operator);
        }
        if first == '"' {
            if n >= 2 && cs[n - 1] == '"' && count_backslashes_before(&cs, n - 1) % 2 == 0 {
                return Token::String {
                    contents: lexeme.substring_char(1, n - 1).to_owned(),
                    closed: true,
                };
            } else {
                return Token::String { contents: lexeme.substring_char(1, n).to_owned(), closed: false };
            }
        }
        Token::Nonspecials(lexeme.to_owned())
    }
}

} // verus!

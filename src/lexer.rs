use vstd::prelude::*;

use crate::token::{token_of, Token, TokenView};

verus! {

/// Unicode `White_Space` characters.
pub open spec fn is_whitespace(c: char) -> bool {
    let u = c as u32;
    (0x09 <= u && u <= 0x0d) || u == 0x20 || u == 0x85 || u == 0xa0 || u == 0x1680 || (0x2000
        <= u && u <= 0x200a) || u == 0x2028 || u == 0x2029 || u == 0x202f || u == 0x205f || u
        == 0x3000
}

/// Characters skipped between lexemes: whitespace and commas.
pub open spec fn is_separator(c: char) -> bool {
    is_whitespace(c) || c == ','
}

/// Characters that may stand in a symbol run.
pub open spec fn is_symbol_char(c: char) -> bool {
    !is_whitespace(c) && c != '[' && c != ']' && c != '{' && c != '}' && c != '(' && c != ')'
        && c != '\'' && c != '"' && c != '`' && c != ',' && c != ';'
}

/// The eleven single-character punctuation marks.
pub open spec fn is_special_char(c: char) -> bool {
    c == '[' || c == ']' || c == '{' || c == '}' || c == '(' || c == ')' || c == '\'' || c
        == '`' || c == '~' || c == '^' || c == '@'
}

/// The first position at or after `i` that does not hold a separator.
pub open spec fn sep_end(s: Seq<char>, i: int) -> int
    decreases s.len() - i,
{
    if 0 <= i < s.len() && is_separator(s[i]) {
        sep_end(s, i + 1)
    } else {
        i
    }
}

/// The first position at or after `i` that does not hold a symbol character.
pub open spec fn run_end(s: Seq<char>, i: int) -> int
    decreases s.len() - i,
{
    if 0 <= i < s.len() && is_symbol_char(s[i]) {
        run_end(s, i + 1)
    } else {
        i
    }
}

/// The first position at or after `i` that holds a newline, or the end.
pub open spec fn line_end(s: Seq<char>, i: int) -> int
    decreases s.len() - i,
{
    if 0 <= i < s.len() && s[i] != '\n' {
        line_end(s, i + 1)
    } else {
        i
    }
}

/// Scans a string body from `i`: the position just past it, and whether an
/// unescaped closing quote ended it. A backslash escapes whatever character
/// follows it; a string left open runs to the end of the input.
pub open spec fn string_end(s: Seq<char>, i: int) -> (int, bool)
    decreases s.len() - i,
{
    if i < 0 || i >= s.len() {
        (i, false)
    } else if s[i] == '"' {
        (i + 1, true)
    } else if s[i] == '\\' {
        if i + 1 < s.len() {
            string_end(s, i + 2)
        } else {
            (s.len() as int, false)
        }
    } else {
        string_end(s, i + 1)
    }
}

/// The end of the lexeme that starts at `i`, a position that holds no separator.
pub open spec fn lexeme_end(s: Seq<char>, i: int) -> int {
    if i < 0 || i >= s.len() {
        i
    } else if s[i] == '~' && i + 1 < s.len() && s[i + 1] == '@' {
        i + 2
    } else if is_special_char(s[i]) {
        i + 1
    } else if s[i] == '"' {
        string_end(s, i + 1).0
    } else if s[i] == ';' {
        line_end(s, i + 1)
    } else {
        run_end(s, i)
    }
}

/// `sep_end` stays in bounds and skips separators only.
pub proof fn lemma_sep_end(s: Seq<char>, i: int)
    requires
        0 <= i <= s.len(),
    ensures
        i <= sep_end(s, i) <= s.len(),
        forall|j: int| i <= j < sep_end(s, i) ==> is_separator(#[trigger] s[j]),
        sep_end(s, i) < s.len() ==> !is_separator(s[sep_end(s, i)]),
    decreases s.len() - i,
{
    if i < s.len() && is_separator(s[i]) {
        lemma_sep_end(s, i + 1);
    }
}

/// `run_end` stays in bounds and covers symbol characters only.
pub proof fn lemma_run_end(s: Seq<char>, i: int)
    requires
        0 <= i <= s.len(),
    ensures
        i <= run_end(s, i) <= s.len(),
        forall|j: int| i <= j < run_end(s, i) ==> is_symbol_char(#[trigger] s[j]),
        run_end(s, i) < s.len() ==> !is_symbol_char(s[run_end(s, i)]),
    decreases s.len() - i,
{
    if i < s.len() && is_symbol_char(s[i]) {
        lemma_run_end(s, i + 1);
    }
}

/// `line_end` stays in bounds.
pub proof fn lemma_line_end(s: Seq<char>, i: int)
    requires
        0 <= i <= s.len(),
    ensures
        i <= line_end(s, i) <= s.len(),
    decreases s.len() - i,
{
    if i < s.len() && s[i] != '\n' {
        lemma_line_end(s, i + 1);
    }
}

/// A string scan stays in bounds, and one left open reaches the end.
pub proof fn lemma_string_end(s: Seq<char>, i: int)
    requires
        0 <= i <= s.len(),
    ensures
        i <= string_end(s, i).0 <= s.len(),
        !string_end(s, i).1 ==> string_end(s, i).0 == s.len(),
    decreases s.len() - i,
{
    if i < s.len() && s[i] != '"' {
        if s[i] == '\\' {
            if i + 1 < s.len() {
                lemma_string_end(s, i + 2);
            }
        } else {
            lemma_string_end(s, i + 1);
        }
    }
}

/// A lexeme that starts at a non-separator is never empty.
pub proof fn lemma_lexeme_end(s: Seq<char>, i: int)
    requires
        0 <= i <= s.len(),
    ensures
        i <= lexeme_end(s, i) <= s.len(),
        i < s.len() && !is_separator(s[i]) ==> i < lexeme_end(s, i),
{
    if i < s.len() {
        lemma_string_end(s, i + 1);
        lemma_line_end(s, i + 1);
        lemma_run_end(s, i);
        if !is_separator(s[i]) && !is_special_char(s[i]) && s[i] != '"' && s[i] != ';' {
            assert(is_symbol_char(s[i]));
        }
    }
}

/// The spans `(start, end)` of the lexemes of `s` from position `i` on, the
/// last one being the empty span at the end of the input.
pub open spec fn lexemes(s: Seq<char>, i: int) -> Seq<(int, int)>
    decreases s.len() - i,
{
    if i < 0 || i > s.len() {
        seq![]
    } else {
        let st = sep_end(s, i);
        if st >= s.len() {
            seq![(st, st)]
        } else {
            proof {
                lemma_sep_end(s, i);
                lemma_lexeme_end(s, st);
            }
            seq![(st, lexeme_end(s, st))] + lexemes(s, lexeme_end(s, st))
        }
    }
}

/// The lexeme spans cover the input: before each span and between two spans
/// stand only separators, every span but the last is non-empty, and the last
/// is the empty span at the end of the input.
proof fn lemma_lexemes_cover(s: Seq<char>, i: int)
    requires
        0 <= i <= s.len(),
    ensures
        ({
            let l = lexemes(s, i);
            &&& l.len() >= 1
            &&& i <= l[0].0
            &&& forall|j: int| i <= j < l[0].0 ==> is_separator(#[trigger] s[j])
            &&& forall|k: int| 0 <= k < l.len() ==> (#[trigger] l[k]).0 <= l[k].1 <= s.len()
            &&& forall|k: int| 0 <= k < l.len() - 1 ==> (#[trigger] l[k]).0 < l[k].1
            &&& forall|k: int| 0 <= k < l.len() - 1 ==> (#[trigger] l[k]).1 <= l[k + 1].0
            &&& forall|k: int, j: int|
                #![trigger l[k], s[j]]
                0 <= k < l.len() - 1 && l[k].1 <= j < l[k + 1].0 ==> is_separator(s[j])
            &&& l[l.len() - 1] == (s.len() as int, s.len() as int)
        }),
    decreases s.len() - i,
{
    lemma_sep_end(s, i);
    let st = sep_end(s, i);
    if st < s.len() {
        lemma_lexeme_end(s, st);
        let en = lexeme_end(s, st);
        lemma_lexemes_cover(s, en);
        let l = lexemes(s, i);
        let r = lexemes(s, en);
        assert(l == seq![(st, en)] + r);
        assert forall|k: int, j: int|
            #![trigger l[k], s[j]]
            0 <= k < l.len() - 1 && l[k].1 <= j < l[k + 1].0 implies is_separator(s[j]) by {
            if k > 0 {
                assert(l[k] == r[k - 1] && l[k + 1] == r[k]);
            }
        }
        assert forall|k: int| 0 <= k < l.len() - 1 implies (#[trigger] l[k]).1 <= l[k + 1].0 by {
            if k > 0 {
                assert(l[k] == r[k - 1] && l[k + 1] == r[k]);
            }
        }
    }
}

/// Tokenizing loses nothing but separators: the input is the concatenation of
/// the lexemes in order, with runs of separators before and between them, and
/// only the final lexeme, at the end of the input, is empty.
pub proof fn lemma_tokenize_covers_input(s: Seq<char>)
    ensures
        ({
            let l = lexemes(s, 0);
            &&& tokens_of(s).len() == l.len() >= 1
            &&& forall|k: int| 0 <= k < l.len() ==> #[trigger] tokens_of(s)[k] == token_of(s.subrange(l[k].0, l[k].1))
            &&& forall|j: int| 0 <= j < l[0].0 ==> is_separator(#[trigger] s[j])
            &&& forall|k: int| 0 <= k < l.len() ==> (#[trigger] l[k]).0 <= l[k].1 <= s.len()
            &&& forall|k: int| 0 <= k < l.len() - 1 ==> (#[trigger] l[k]).0 < l[k].1
            &&& forall|k: int| 0 <= k < l.len() - 1 ==> (#[trigger] l[k]).1 <= l[k + 1].0
            &&& forall|k: int, j: int|
                #![trigger l[k], s[j]]
                0 <= k < l.len() - 1 && l[k].1 <= j < l[k + 1].0 ==> is_separator(s[j])
            &&& l[l.len() - 1] == (s.len() as int, s.len() as int)
        }),
{
    lemma_lexemes_cover(s, 0);
}

/// The token sequence of any input is non-empty.
pub proof fn lemma_tokens_nonempty(s: Seq<char>)
    ensures
        tokens_of(s).len() >= 1,
{
    lemma_lexemes_cover(s, 0);
}

/// The tokens of `s` from position `i` on: each lexeme, classified.
pub open spec fn tokens_from(s: Seq<char>, i: int) -> Seq<TokenView> {
    lexemes(s, i).map_values(|p: (int, int)| token_of(s.subrange(p.0, p.1)))
}

/// The tokens of `s`.
pub open spec fn tokens_of(s: Seq<char>) -> Seq<TokenView> {
    tokens_from(s, 0)
}

/// The characters of `s`, in order.
pub fn chars_of(s: &str) -> (r: Vec<char>)
    ensures
        r@ == s@,
{
    let n = s.unicode_len();
    let mut r: Vec<char> = Vec::new();
    let mut i: usize = 0;
    while i < n
        invariant
            n == s@.len(),
            i <= n,
            r@ == s@.subrange(0, i as int),
        decreases n - i,
    {
        r.push(s.get_char(i));
        i += 1;
    }
    assert(r@ =~= s@);
    r
}

/// Skips separators from `i`.
pub fn skip_separators(s: &Vec<char>, i: usize) -> (r: usize)
    requires
        i <= s@.len(),
    ensures
        r as int == sep_end(s@, i as int),
{
    let mut j = i;
    while j < s.len() && is_separator_char(s[j])
        invariant
            i <= j <= s@.len(),
            sep_end(s@, j as int) == sep_end(s@, i as int),
        decreases s@.len() - j,
    {
        j += 1;
    }
    j
}

/// Whether `c` is Unicode whitespace.
pub fn is_whitespace_char(c: char) -> (r: bool)
    ensures
        r == is_whitespace(c),
{
    let u = c as u32;
    (0x09 <= u && u <= 0x0d) || u == 0x20 || u == 0x85 || u == 0xa0 || u == 0x1680 || (0x2000
        <= u && u <= 0x200a) || u == 0x2028 || u == 0x2029 || u == 0x202f || u == 0x205f || u
        == 0x3000
}

/// Whether `c` separates lexemes.
pub fn is_separator_char(c: char) -> (r: bool)
    ensures
        r == is_separator(c),
{
    is_whitespace_char(c) || c == ','
}

/// Scans a string body from `i`; see [`string_end`].
pub fn scan_string(s: &Vec<char>, i: usize) -> (r: (usize, bool))
    requires
        i <= s@.len(),
    ensures
        r.0 as int == string_end(s@, i as int).0,
        r.1 == string_end(s@, i as int).1,
{
    let n = s.len();
    let mut j = i;
    while j < n
        invariant
            i <= j <= n,
            n == s@.len(),
            string_end(s@, j as int) == string_end(s@, i as int),
        decreases n - j,
    {
        let c = s[j];
        if c == '"' {
            return (j + 1, true);
        } else if c == '\\' {
            if j + 1 < n {
                j += 2;
            } else {
                return (n, false);
            }
        } else {
            j += 1;
        }
    }
    (j, false)
}

/// The end of a comment's text from `i`; see [`line_end`].
fn scan_line(s: &Vec<char>, i: usize) -> (r: usize)
    requires
        i <= s@.len(),
    ensures
        r as int == line_end(s@, i as int),
{
    let mut j = i;
    while j < s.len() && s[j] != '\n'
        invariant
            i <= j <= s@.len(),
            line_end(s@, j as int) == line_end(s@, i as int),
        decreases s@.len() - j,
    {
        j += 1;
    }
    j
}

/// The end of a symbol run from `i`; see [`run_end`].
fn scan_run(s: &Vec<char>, i: usize) -> (r: usize)
    requires
        i <= s@.len(),
    ensures
        r as int == run_end(s@, i as int),
{
    let mut j = i;
    while j < s.len() && is_symbol_char_exec(s[j])
        invariant
            i <= j <= s@.len(),
            run_end(s@, j as int) == run_end(s@, i as int),
        decreases s@.len() - j,
    {
        j += 1;
    }
    j
}

/// Whether `c` may stand in a symbol run.
fn is_symbol_char_exec(c: char) -> (r: bool)
    ensures
        r == is_symbol_char(c),
{
    !is_whitespace_char(c) && c != '[' && c != ']' && c != '{' && c != '}' && c != '(' && c
        != ')' && c != '\'' && c != '"' && c != '`' && c != ',' && c != ';'
}

/// The end of the lexeme that starts at `i`; see [`lexeme_end`].
pub fn scan_lexeme(s: &Vec<char>, i: usize) -> (r: usize)
    requires
        i <= s@.len(),
    ensures
        r as int == lexeme_end(s@, i as int),
{
    let n = s.len();
    if i >= n {
        return i;
    }
    let c = s[i];
    if c == '~' && i + 1 < n && s[i + 1] == '@' {
        i + 2
    } else if c == '[' || c == ']' || c == '{' || c == '}' || c == '(' || c == ')' || c == '\''
        || c == '`' || c == '~' || c == '^' || c == '@' {
        i + 1
    } else if c == '"' {
        scan_string(s, i + 1).0
    } else if c == ';' {
        scan_line(s, i + 1)
    } else {
        scan_run(s, i)
    }
}

/// Splits `input` into its lexemes and classifies each. Separators (whitespace
/// and commas) between lexemes are dropped, and the last token is always the
/// empty symbol that stands for the end of the input.
pub fn tokenize(input: &str) -> (r: Vec<Token>)
    ensures
        r@.map_values(|t: Token| t@) == tokens_of(input@),
{
    let s = chars_of(input);
    let n = s.len();
    let mut out: Vec<Token> = Vec::new();
    let mut i: usize = 0;
    loop
        invariant
            n == s@.len(),
            s@ == input@,
            i <= n,
            out@.map_values(|t: Token| t@) + tokens_from(s@, i as int) == tokens_of(input@),
        decreases n - i,
    {
        let st = skip_separators(&s, i);
        proof {
            lemma_sep_end(s@, i as int);
        }
        if st >= n {
            let t = Token::from_lexeme(input.substring_char(st, st));
            proof {
                let ghost rest = lexemes(s@, i as int);
                assert(rest == seq![(st as int, st as int)]);
                assert(out@.push(t).map_values(|t: Token| t@) =~= out@.map_values(|t: Token| t@)
                    + tokens_from(s@, i as int));
            }
            out.push(t);
            return out;
        }
        let en = scan_lexeme(&s, st);
        proof {
            lemma_lexeme_end(s@, st as int);
        }
        let t = Token::from_lexeme(input.substring_char(st, en));
        proof {
            let ghost rest = lexemes(s@, en as int);
            assert(lexemes(s@, i as int) == seq![(st as int, en as int)] + rest);
            assert(tokens_from(s@, i as int) =~= seq![t@] + tokens_from(s@, en as int));
            assert(out@.push(t).map_values(|t: Token| t@) =~= out@.map_values(|t: Token| t@)
                + seq![t@]);
        }
        out.push(t);
        i = en;
    }
}

} // verus!

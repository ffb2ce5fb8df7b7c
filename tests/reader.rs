use mal_reader::form::{Atom, Type};
use mal_reader::lexer::tokenize;
use mal_reader::reader::Tokens;
use mal_reader::token::{Operator, Special, Token};

fn read(input: &str) -> Option<Type> {
    Tokens::read_str(input).read_form()
}

fn lit(s: &str) -> Type {
    Type::Atom(Atom::Literal(s.to_string()))
}

#[test]
fn empty_input_reads_nothing() {
    assert_eq!(read(""), None);
    assert_eq!(read("   ,, "), None);
}

#[test]
fn simple_list_reads_and_prints() {
    let form = read("(+ 1 2)").unwrap();
    assert_eq!(
        form,
        Type::List(vec![Type::Atom(Atom::Operator(Operator::Add)), lit("1"), lit("2")])
    );
    assert_eq!(form.to_string(), "(+ 1 2)");
}

#[test]
fn closed_string_reads_as_quoted_literal() {
    let form = read("\"abc\"").unwrap();
    assert_eq!(form, lit("\"abc\""));
    assert_eq!(form.to_string(), "\"abc\"");
}

#[test]
fn unterminated_string_is_tagged() {
    let form = read("\"abc").unwrap();
    assert_eq!(form.to_string(), "\"abcunbalanced");
}

#[test]
fn unterminated_list_reads_nothing() {
    assert_eq!(read("(1 2"), None);
    assert_eq!(read("("), None);
}

#[test]
fn comment_reads_nothing() {
    assert_eq!(read("; a comment"), None);
}

#[test]
fn nested_lists_round_trip() {
    let form = read("(a (b c) d)").unwrap();
    assert_eq!(form, Type::List(vec![lit("a"), Type::List(vec![lit("b"), lit("c")]), lit("d")]));
    assert_eq!(form.to_string(), "(a (b c) d)");
}

#[test]
fn splice_marker_reads_nothing() {
    assert_eq!(read("~@"), None);
    assert_eq!(read("(a ~@ b)"), None);
}

#[test]
fn printed_form_reads_back_the_same() {
    let inputs = ["( +  1 ,2 )", "(a (b \"c d\") () e)", "  sym  ", "(* (/ 4 2) (- 3 1))"];
    for input in inputs {
        let form = read(input).unwrap();
        let text = form.to_string();
        let again = read(&text).unwrap();
        assert_eq!(again, form);
        assert_eq!(again.to_string(), text);
    }
}

#[test]
fn tokenize_classifies_each_lexeme() {
    let tokens = tokenize("(~@ ; note\n[x] \"s\\\"t\" -5 'q");
    assert_eq!(
        tokens,
        vec![
            Token::Special(Special::OpenParen),
            Token::Tat,
            Token::Comment(" note".to_string()),
            Token::Special(Special::OpenBracket),
            Token::Nonspecials("x".to_string()),
            Token::Special(Special::CloseBracket),
            Token::String { contents: "s\\\"t".to_string(), closed: true },
            Token::Operator(Operator::Sub),
            Token::Special(Special::Tick),
            Token::Nonspecials("q".to_string()),
            Token::Nonspecials(String::new()),
        ]
    );
}

#[test]
fn tokenize_empty_input_gives_end_marker() {
    assert_eq!(tokenize(""), vec![Token::Nonspecials(String::new())]);
    assert_eq!(tokenize("abc"), vec![Token::Nonspecials("abc".to_string()), Token::Nonspecials(String::new())]);
}

#[test]
fn unterminated_string_token() {
    assert_eq!(
        tokenize("\"ab\\\""),
        vec![
            Token::String { contents: "ab\\\"".to_string(), closed: false },
            Token::Nonspecials(String::new()),
        ]
    );
}

#[test]
fn backslash_escapes_newline_in_string() {
    let tokens = tokenize("\"\\\n\"");
    assert_eq!(
        tokens,
        vec![
            Token::String { contents: "\\\n".to_string(), closed: true },
            Token::Nonspecials(String::new()),
        ]
    );
    assert_eq!(
        Token::from_lexeme("\"\\\n\""),
        Token::String { contents: "\\\n".to_string(), closed: true }
    );
}

#[test]
fn trailing_backslash_stays_in_unclosed_string() {
    assert_eq!(
        tokenize("\"ab\\"),
        vec![
            Token::String { contents: "ab\\".to_string(), closed: false },
            Token::Nonspecials(String::new()),
        ]
    );
    assert_eq!(read("\"ab\\").unwrap().to_string(), "\"ab\\unbalanced");
}

#[test]
fn escaped_final_quote_is_not_closing() {
    assert_eq!(
        Token::from_lexeme("\"\\\""),
        Token::String { contents: "\\\"".to_string(), closed: false }
    );
    assert_eq!(
        Token::from_lexeme("\"\\\\\""),
        Token::String { contents: "\\\\".to_string(), closed: true }
    );
}

#[test]
fn unicode_whitespace_separates() {
    let tokens = tokenize("a\u{3000}b");
    assert_eq!(tokens[0], Token::Nonspecials("a".to_string()));
    assert_eq!(tokens[1], Token::Nonspecials("b".to_string()));
}

#[test]
fn classify_lexemes() {
    assert_eq!(Token::from_lexeme("~@"), Token::Tat);
    assert_eq!(Token::from_lexeme("~"), Token::Special(Special::Tilde));
    assert_eq!(Token::from_lexeme(";x"), Token::Comment("x".to_string()));
    assert_eq!(Token::from_lexeme("+abc"), Token::Operator(Operator::Add));
    assert_eq!(Token::from_lexeme("\"\""), Token::String { contents: String::new(), closed: true });
    assert_eq!(Token::from_lexeme("\""), Token::String { contents: String::new(), closed: false });
    assert_eq!(Token::from_lexeme("12"), Token::Nonspecials("12".to_string()));
}

#[test]
fn char_classification() {
    assert_eq!(Operator::try_from('/'), Some(Operator::Div));
    assert_eq!(Operator::try_from('a'), None);
    assert_eq!(Special::try_from('@'), Some(Special::At));
    assert_eq!(Special::try_from('"'), None);
    assert_eq!(Operator::Mul.to_str(), "*");
}

#[test]
fn stray_punctuation_is_skipped_one_token_at_a_time() {
    let mut tokens = Tokens::read_str("[ x");
    assert_eq!(tokens.read_form(), None);
    assert_eq!(tokens.read_form(), Some(lit("x")));
    assert_eq!(tokens.read_form(), None);
}

#[test]
fn successive_forms_and_pr_str() {
    let mut tokens = Tokens::read_str("(1) 2 \"x");
    assert_eq!(tokens.pr_str(), Some("(1)".to_string()));
    assert_eq!(tokens.pr_str(), Some("2".to_string()));
    assert_eq!(tokens.pr_str(), Some("\"xunbalanced".to_string()));
    assert_eq!(tokens.pr_str(), None);
}

#[test]
fn peek_and_next_walk_the_queue() {
    let mut tokens = Tokens::read_str("(a)");
    assert_eq!(tokens.peek(), Some(&Token::Special(Special::OpenParen)));
    assert_eq!(tokens.next(), Some(Token::Special(Special::OpenParen)));
    assert_eq!(tokens.next(), Some(Token::Nonspecials("a".to_string())));
    assert_eq!(tokens.peek(), Some(&Token::Special(Special::CloseParen)));
    assert_eq!(tokens.next(), Some(Token::Special(Special::CloseParen)));
    assert_eq!(tokens.next(), None);
}

#[test]
fn empty_list_prints_as_parens() {
    let form = read("()").unwrap();
    assert_eq!(form, Type::List(vec![]));
    assert_eq!(form.to_string(), "()");
    assert_eq!(Atom::Operator(Operator::Sub).to_string(), "-");
}

#[test]
fn punctuation_inside_list_reads_nothing() {
    assert_eq!(read("(a 'b)"), None);
    assert_eq!(read("(a ; note"), None);
    let form = read("(- x \"s\")").unwrap();
    assert_eq!(
        form,
        Type::List(vec![Type::Atom(Atom::Operator(Operator::Sub)), lit("x"), lit("\"s\"")])
    );
}

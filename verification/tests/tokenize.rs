use lib::token::{tokenize, try_tokenize, Token, TokenType};

fn kinds(tokens: &[Token]) -> Vec<TokenType> {
    tokens.iter().map(|t| t.ty.clone()).collect()
}

fn inputs(tokens: &[Token]) -> Vec<String> {
    tokens.iter().map(|t| t.input.clone()).collect()
}

fn ident(name: &str) -> TokenType {
    TokenType::Ident(name.to_string())
}

#[test]
fn adds_two_numbers() {
    let tokens = tokenize("1+2".to_string());
    assert_eq!(kinds(&tokens), vec![TokenType::Num(1), TokenType::Plus, TokenType::Num(2)]);
    assert_eq!(inputs(&tokens), vec!["+2", "+2", ""]);
}

#[test]
fn small_function() {
    let src = "int main() { return 0; }";
    let tokens = tokenize(src.to_string());
    assert_eq!(
        kinds(&tokens),
        vec![
            TokenType::Int,
            ident("main"),
            TokenType::LeftParen,
            TokenType::RightParen,
            TokenType::LeftBrace,
            TokenType::Return,
            TokenType::Num(0),
            TokenType::Semicolon,
            TokenType::RightBrace,
        ]
    );
    assert_eq!(
        inputs(&tokens),
        vec![
            "int main() { return 0; }",
            "() { return 0; }",
            "() { return 0; }",
            ") { return 0; }",
            "{ return 0; }",
            "return 0; }",
            "; }",
            "; }",
            "}",
        ]
    );
}

#[test]
fn keyword_prefix_splits_identifier() {
    let tokens = tokenize("intx".to_string());
    assert_eq!(kinds(&tokens), vec![TokenType::Int, ident("x")]);
    assert_eq!(inputs(&tokens), vec!["intx", ""]);
    let tokens = tokenize("ifx".to_string());
    assert_eq!(kinds(&tokens), vec![TokenType::If, ident("x")]);
}

#[test]
fn all_keywords() {
    let tokens = tokenize("char else for if int return sizeof".to_string());
    assert_eq!(
        kinds(&tokens),
        vec![
            TokenType::Char,
            TokenType::Else,
            TokenType::For,
            TokenType::If,
            TokenType::Int,
            TokenType::Return,
            TokenType::Sizeof,
        ]
    );
}

#[test]
fn two_char_operators() {
    let tokens = tokenize("a&&b||c==d!=e".to_string());
    assert_eq!(
        kinds(&tokens),
        vec![
            ident("a"),
            TokenType::Logand,
            ident("b"),
            TokenType::Logor,
            ident("c"),
            TokenType::EQ,
            ident("d"),
            TokenType::NE,
            ident("e"),
        ]
    );
    assert_eq!(inputs(&tokens)[0], "&&b||c==d!=e");
    assert_eq!(inputs(&tokens)[1], "&&b||c==d!=e");
    assert_eq!(inputs(&tokens)[5], "==d!=e");
}

#[test]
fn single_letter_operators() {
    let tokens = tokenize("+-*/&;=()[]{}<>,".to_string());
    assert_eq!(
        kinds(&tokens),
        vec![
            TokenType::Plus,
            TokenType::Minus,
            TokenType::Mul,
            TokenType::Div,
            TokenType::And,
            TokenType::Semicolon,
            TokenType::Equal,
            TokenType::LeftParen,
            TokenType::RightParen,
            TokenType::LeftBracket,
            TokenType::RightBracket,
            TokenType::LeftBrace,
            TokenType::RightBrace,
            TokenType::LeftAngleBracket,
            TokenType::RightAngleBracket,
            TokenType::Colon,
        ]
    );
    assert_eq!(inputs(&tokens)[14], ">,");
    assert_eq!(inputs(&tokens)[15], ",");
}

#[test]
fn single_ampersand_is_address_of() {
    let tokens = tokenize("&x".to_string());
    assert_eq!(kinds(&tokens), vec![TokenType::And, ident("x")]);
    assert_eq!(inputs(&tokens), vec!["&x", ""]);
}

#[test]
fn identifier_with_underscore_and_digits() {
    let tokens = tokenize("_x1 = 2".to_string());
    assert_eq!(kinds(&tokens), vec![ident("_x1"), TokenType::Equal, TokenType::Num(2)]);
    assert_eq!(inputs(&tokens), vec![" = 2", "= 2", ""]);
}

#[test]
fn equality_between_identifiers() {
    let tokens = tokenize("a==b".to_string());
    assert_eq!(kinds(&tokens), vec![ident("a"), TokenType::EQ, ident("b")]);
    assert_eq!(inputs(&tokens), vec!["==b", "==b", ""]);
}

#[test]
fn number_then_identifier() {
    let tokens = tokenize("12abc".to_string());
    assert_eq!(kinds(&tokens), vec![TokenType::Num(12), ident("abc")]);
    assert_eq!(inputs(&tokens), vec!["abc", ""]);
}

#[test]
fn leading_zeros() {
    let tokens = tokenize("007".to_string());
    assert_eq!(kinds(&tokens), vec![TokenType::Num(7)]);
}

#[test]
fn largest_number() {
    let tokens = tokenize("2147483647".to_string());
    assert_eq!(kinds(&tokens), vec![TokenType::Num(i32::MAX)]);
}

#[test]
fn number_too_large() {
    assert!(try_tokenize("2147483648".to_string()).is_none());
}

#[test]
fn string_with_newline_escape() {
    let tokens = tokenize("\"ab\\n\"".to_string());
    assert_eq!(kinds(&tokens), vec![TokenType::Str("ab\n".to_string(), 5)]);
    assert_eq!(inputs(&tokens), vec![""]);
}

#[test]
fn string_with_other_escapes() {
    let tokens = tokenize("\"a\\tb\\\"c\\q\" x".to_string());
    assert_eq!(
        kinds(&tokens),
        vec![TokenType::Str("a\tb\"cq".to_string(), 10), ident("x")]
    );
    assert_eq!(inputs(&tokens), vec![" x", ""]);
}

#[test]
fn empty_string_literal() {
    let tokens = tokenize("\"\";".to_string());
    assert_eq!(kinds(&tokens), vec![TokenType::Str(String::new(), 1), TokenType::Semicolon]);
    assert_eq!(inputs(&tokens), vec![";", ";"]);
}

#[test]
fn unterminated_string() {
    assert!(try_tokenize("\"abc".to_string()).is_none());
    assert!(try_tokenize("\"abc\\".to_string()).is_none());
}

#[test]
fn unknown_characters() {
    assert!(try_tokenize("@".to_string()).is_none());
    assert!(try_tokenize("!x".to_string()).is_none());
    assert!(try_tokenize("a % b".to_string()).is_none());
}

#[test]
fn whitespace_only() {
    assert!(tokenize("  \t\n\r ".to_string()).is_empty());
    assert!(tokenize(String::new()).is_empty());
}

#[test]
fn non_ascii_letter_cut_inside() {
    assert!(try_tokenize("é".to_string()).is_none());
}

#[test]
fn non_ascii_letter_after_ascii_cut_by_keyword_check() {
    assert!(try_tokenize("aé b".to_string()).is_none());
}

#[test]
fn non_ascii_letter_then_ascii() {
    let tokens = tokenize("éa".to_string());
    assert_eq!(kinds(&tokens), vec![ident("é"), ident("a")]);
    assert_eq!(inputs(&tokens), vec!["a", ""]);
}

#[test]
fn wide_whitespace_is_cut_inside() {
    assert!(try_tokenize("\u{3000}x".to_string()).is_none());
    assert!(try_tokenize("\u{a0}x".to_string()).is_none());
}

#[test]
fn non_ascii_in_string_literal() {
    assert!(try_tokenize("\"é\"".to_string()).is_none());
}

#[test]
fn try_tokenize_agrees_with_tokenize() {
    let src = "int f(int a, int b) { return a * (b + 3); }";
    let a = tokenize(src.to_string());
    let b = try_tokenize(src.to_string()).unwrap();
    assert_eq!(kinds(&a), kinds(&b));
    assert_eq!(inputs(&a), inputs(&b));
}

#[test]
fn token_inputs_are_shrinking_suffixes() {
    let src = "int main() { int x = 10; if (x > 3) return \"s\\n\"; return x; }";
    let tokens = tokenize(src.to_string());
    let mut last = src.len();
    for t in &tokens {
        assert!(src.ends_with(t.input.as_str()));
        assert!(t.input.len() <= last);
        last = t.input.len();
    }
}

#[test]
fn token_payloads_are_well_formed() {
    let src = "int main() { int _a1 = 0; x = \"\"; y = 42; }";
    let tokens = tokenize(src.to_string());
    for t in &tokens {
        match &t.ty {
            TokenType::Num(v) => assert!(*v >= 0),
            TokenType::Ident(name) => assert!(!name.is_empty()),
            TokenType::Str(_, n) => assert!(*n >= 1),
            _ => {}
        }
    }
    assert!(kinds(&tokens).contains(&TokenType::Num(0)));
    assert!(kinds(&tokens).contains(&TokenType::Str(String::new(), 1)));
}

#[test]
fn joining_texts_with_a_space_joins_their_kinds() {
    let a = "int x=1;y";
    let b = "+2 \"s\" if";
    let ta = tokenize(a.to_string());
    let tb = tokenize(b.to_string());
    let joined = tokenize(format!("{} {}", a, b));
    let mut expected = kinds(&ta);
    expected.extend(kinds(&tb));
    assert_eq!(kinds(&joined), expected);
    assert_eq!(inputs(&joined)[0], "int x=1;y +2 \"s\" if");
}

#[test]
fn all_ascii_whitespace_is_skipped() {
    let tokens = tokenize("\t\n\u{b}\u{c}\r 1".to_string());
    assert_eq!(kinds(&tokens), vec![TokenType::Num(1)]);
}

#[test]
fn wide_whitespace_is_refused() {
    assert!(try_tokenize("\u{85}".to_string()).is_none());
    assert!(try_tokenize("x\u{2028}".to_string()).is_none());
}

//! Tokenizer: turns the source text into a sequence of tokens.

use vstd::prelude::*;
use crate::text::{
    ascii_digit, byte_split, digit_value, text_chars, is_letter, char_is_whitespace, find_byte_offset,
    is_alphabetic, is_ascii_digit, is_one_byte, is_whitespace, lemma_byte_split_ascii, lemma_byte_split_ascii_short,
    lemma_byte_split_at, split_off_bytes, width, Boundary, ByteSplit,
};

verus! {

/// Kind of a token, with its payload where it has one.
#[derive(Debug, PartialEq, Clone)]
pub enum TokenType {
    /// Number literal.
    Num(i32),
    /// String literal: its value, and the number of chars it takes after the
    /// opening quote (closing quote included).
    Str(String, usize),
    /// Identifier.
    Ident(String),
    /// `int`
    Int,
    /// `char`
    Char,
    /// `+`
    Plus,
    /// `-`
    Minus,
    /// `*`
    Mul,
    /// `&`
    And,
    /// `/`
    Div,
    /// `if`
    If,
    /// `else`
    Else,
    /// `for`
    For,
    /// `==`
    EQ,
    /// `!=`
    NE,
    /// `;`
    Semicolon,
    /// `(`
    LeftParen,
    /// `)`
    RightParen,
    /// `[`
    LeftBracket,
    /// `]`
    RightBracket,
    /// `{`
    LeftBrace,
    /// `}`
    RightBrace,
    /// `<`
    LeftAngleBracket,
    /// `>`
    RightAngleBracket,
    /// `=`
    Equal,
    /// `||`
    Logor,
    /// `&&`
    Logand,
    /// `return`
    Return,
    /// `sizeof`
    Sizeof,
    /// `,`
    Colon,
}

/// Mathematical model of a `TokenType`: strings are taken as their chars.
pub enum SpecTokenType {
    Num(i32),
    Str(Seq<char>, usize),
    Ident(Seq<char>),
    Int,
    Char,
    Plus,
    Minus,
    Mul,
    And,
    Div,
    If,
    Else,
    For,
    EQ,
    NE,
    Semicolon,
    LeftParen,
    RightParen,
    LeftBracket,
    RightBracket,
    LeftBrace,
    RightBrace,
    LeftAngleBracket,
    RightAngleBracket,
    Equal,
    Logor,
    Logand,
    Return,
    Sizeof,
    Colon,
}

impl View for TokenType {
    type V = SpecTokenType;

    open spec fn view(&self) -> SpecTokenType {
        match self {
            TokenType::Num(v) => SpecTokenType::Num(*v),
            TokenType::Str(s, n) => SpecTokenType::Str(s@, *n),
            TokenType::Ident(s) => SpecTokenType::Ident(s@),
            TokenType::Int => SpecTokenType::Int,
            TokenType::Char => SpecTokenType::Char,
            TokenType::Plus => SpecTokenType::Plus,
            TokenType::Minus => SpecTokenType::Minus,
            TokenType::Mul => SpecTokenType::Mul,
            TokenType::And => SpecTokenType::And,
            TokenType::Div => SpecTokenType::Div,
            TokenType::If => SpecTokenType::If,
            TokenType::Else => SpecTokenType::Else,
            TokenType::For => SpecTokenType::For,
            TokenType::EQ => SpecTokenType::EQ,
            TokenType::NE => SpecTokenType::NE,
            TokenType::Semicolon => SpecTokenType::Semicolon,
            TokenType::LeftParen => SpecTokenType::LeftParen,
            TokenType::RightParen => SpecTokenType::RightParen,
            TokenType::LeftBracket => SpecTokenType::LeftBracket,
            TokenType::RightBracket => SpecTokenType::RightBracket,
            TokenType::LeftBrace => SpecTokenType::LeftBrace,
            TokenType::RightBrace => SpecTokenType::RightBrace,
            TokenType::LeftAngleBracket => SpecTokenType::LeftAngleBracket,
            TokenType::RightAngleBracket => SpecTokenType::RightAngleBracket,
            TokenType::Equal => SpecTokenType::Equal,
            TokenType::Logor => SpecTokenType::Logor,
            TokenType::Logand => SpecTokenType::Logand,
            TokenType::Return => SpecTokenType::Return,
            TokenType::Sizeof => SpecTokenType::Sizeof,
            TokenType::Colon => SpecTokenType::Colon,
        }
    }
}

/// The token kind a one-char operator or punctuator stands for.
pub open spec fn spec_single_letter(c: char) -> Option<SpecTokenType> {
    if c == '+' {
        Some(SpecTokenType::Plus)
    } else if c == '-' {
        Some(SpecTokenType::Minus)
    } else if c == '*' {
        Some(SpecTokenType::Mul)
    } else if c == '/' {
        Some(SpecTokenType::Div)
    } else if c == '&' {
        Some(SpecTokenType::And)
    } else if c == ';' {
        Some(SpecTokenType::Semicolon)
    } else if c == '=' {
        Some(SpecTokenType::Equal)
    } else if c == '(' {
        Some(SpecTokenType::LeftParen)
    } else if c == ')' {
        Some(SpecTokenType::RightParen)
    } else if c == '[' {
        Some(SpecTokenType::LeftBracket)
    } else if c == ']' {
        Some(SpecTokenType::RightBracket)
    } else if c == '{' {
        Some(SpecTokenType::LeftBrace)
    } else if c == '}' {
        Some(SpecTokenType::RightBrace)
    } else if c == '<' {
        Some(SpecTokenType::LeftAngleBracket)
    } else if c == '>' {
        Some(SpecTokenType::RightAngleBracket)
    } else if c == ',' {
        Some(SpecTokenType::Colon)
    } else {
        None
    }
}

impl TokenType {
    /// The token kind a one-char operator or punctuator stands for, if any.
    fn new_single_letter(c: char) -> (r: Option<Self>)
        ensures
            match spec_single_letter(c) {
                Some(t) => r matches Some(x) && x@ == t,
                None => r is None,
            },
    {
        match c {
            '+' => Some(TokenType::Plus),
            '-' => Some(TokenType::Minus),
            '*' => Some(TokenType::Mul),
            '/' => Some(TokenType::Div),
            '&' => Some(TokenType::And),
            ';' => Some(TokenType::Semicolon),
            '=' => Some(TokenType::Equal),
            '(' => Some(TokenType::LeftParen),
            ')' => Some(TokenType::RightParen),
            '[' => Some(TokenType::LeftBracket),
            ']' => Some(TokenType::RightBracket),
            '{' => Some(TokenType::LeftBrace),
            '}' => Some(TokenType::RightBrace),
            '<' => Some(TokenType::LeftAngleBracket),
            '>' => Some(TokenType::RightAngleBracket),
            ',' => Some(TokenType::Colon),
            _ => None,
        }
    }
}

/// A multi-char keyword or operator, with the token kind it stands for.
#[derive(Debug, Clone)]
pub struct Symbol {
    pub name: &'static str,
    pub ty: TokenType,
}

impl Symbol {
    fn new(name: &'static str, ty: TokenType) -> (s: Self)
        ensures
            s.name == name,
            s.ty == ty,
    {
        Symbol { name: name, ty: ty }
    }
}

/// The multi-char keywords and operators, in the order the tokenizer tries them.
pub open spec fn spec_symbols() -> Seq<(Seq<char>, SpecTokenType)> {
    seq![
        (seq!['c', 'h', 'a', 'r'], SpecTokenType::Char),
        (seq!['e', 'l', 's', 'e'], SpecTokenType::Else),
        (seq!['f', 'o', 'r'], SpecTokenType::For),
        (seq!['i', 'f'], SpecTokenType::If),
        (seq!['i', 'n', 't'], SpecTokenType::Int),
        (seq!['r', 'e', 't', 'u', 'r', 'n'], SpecTokenType::Return),
        (seq!['s', 'i', 'z', 'e', 'o', 'f'], SpecTokenType::Sizeof),
        (seq!['&', '&'], SpecTokenType::Logand),
        (seq!['|', '|'], SpecTokenType::Logor),
        (seq!['=', '='], SpecTokenType::EQ),
        (seq!['!', '='], SpecTokenType::NE),
    ]
}

/// The table of multi-char keywords and operators.
fn symbols() -> (table: Vec<Symbol>)
    ensures
        table@.len() == spec_symbols().len(),
        forall|i: int|
            0 <= i < table@.len() ==> (#[trigger] table@[i]).name@ == spec_symbols()[i].0
                && table@[i].ty@ == spec_symbols()[i].1,
{
    proof {
        reveal_strlit("char");
        reveal_strlit("else");
        reveal_strlit("for");
        reveal_strlit("if");
        reveal_strlit("int");
        reveal_strlit("return");
        reveal_strlit("sizeof");
        reveal_strlit("&&");
        reveal_strlit("||");
        reveal_strlit("==");
        reveal_strlit("!=");
    }
    let mut table: Vec<Symbol> = Vec::new();
    table.push(Symbol::new("char", TokenType::Char));
    table.push(Symbol::new("else", TokenType::Else));
    table.push(Symbol::new("for", TokenType::For));
    table.push(Symbol::new("if", TokenType::If));
    table.push(Symbol::new("int", TokenType::Int));
    table.push(Symbol::new("return", TokenType::Return));
    table.push(Symbol::new("sizeof", TokenType::Sizeof));
    table.push(Symbol::new("&&", TokenType::Logand));
    table.push(Symbol::new("||", TokenType::Logor));
    table.push(Symbol::new("==", TokenType::EQ));
    table.push(Symbol::new("!=", TokenType::NE));
    assert("char"@ =~= seq!['c', 'h', 'a', 'r']);
    assert("else"@ =~= seq!['e', 'l', 's', 'e']);
    assert("for"@ =~= seq!['f', 'o', 'r']);
    assert("if"@ =~= seq!['i', 'f']);
    assert("int"@ =~= seq!['i', 'n', 't']);
    assert("return"@ =~= seq!['r', 'e', 't', 'u', 'r', 'n']);
    assert("sizeof"@ =~= seq!['s', 'i', 'z', 'e', 'o', 'f']);
    assert("&&"@ =~= seq!['&', '&']);
    assert("||"@ =~= seq!['|', '|']);
    assert("=="@ =~= seq!['=', '=']);
    assert("!="@ =~= seq!['!', '=']);
    table
}

/// A token, with the text from where the tokenizer stood when it made it.
#[derive(Debug, Clone)]
pub struct Token {
    /// Token kind.
    pub ty: TokenType,
    /// Rest of the source text, kept for error reports.
    pub input: String,
}

/// Mathematical model of a `Token`.
pub struct SpecToken {
    pub ty: SpecTokenType,
    pub input: Seq<char>,
}

impl View for Token {
    type V = SpecToken;

    open spec fn view(&self) -> SpecToken {
        SpecToken { ty: self.ty@, input: self.input@ }
    }
}

/// The models of a sequence of tokens.
pub open spec fn tokens_view(ts: Seq<Token>) -> Seq<SpecToken> {
    ts.map_values(|t: Token| t@)
}

/// Outcome of trying the symbol table on a text.
pub enum SymbolScan {
    /// The text starts with the name of a symbol of this kind, `k` chars long.
    Found(SpecTokenType, nat),
    /// No symbol name starts the text.
    NotFound,
    /// Splitting the text at the byte length of a name panics (it falls inside a char).
    Panic,
}

/// Tries the symbols from index `i` of the table on: a symbol is skipped where
/// the text has fewer bytes than its name (names are ASCII, so their byte length
/// is their length); the text is split at that byte length, which panics inside
/// a char; the first name equal to the part before the split wins.
pub open spec fn scan_symbols(s: Seq<char>, i: int) -> SymbolScan
    decreases spec_symbols().len() - i,
{
    if i < 0 || i >= spec_symbols().len() {
        SymbolScan::NotFound
    } else {
        let name = spec_symbols()[i].0;
        match byte_split(s, name.len()) {
            ByteSplit::Short => scan_symbols(s, i + 1),
            ByteSplit::Inside => SymbolScan::Panic,
            ByteSplit::At(k) => if s.take(k as int) == name {
                SymbolScan::Found(spec_symbols()[i].1, k)
            } else {
                scan_symbols(s, i + 1)
            },
        }
    }
}

/// The char a backslash escape stands for: `\n`, `\r`, `\t`, or else the escaped char itself.
pub open spec fn unescape(c: char) -> char {
    if c == 'n' {
        '\n'
    } else if c == 'r' {
        '\r'
    } else if c == 't' {
        '\t'
    } else {
        c
    }
}

/// Reads a string literal whose opening quote is already consumed: its value and
/// the number of chars read, closing quote included. `None` where the text ends
/// first, or where a char read is more than one byte long (the char-by-char
/// `split_off(1)` panics there).
pub open spec fn spec_read_string(p: Seq<char>) -> Option<(Seq<char>, nat)>
    decreases p.len(),
{
    if p.len() == 0 {
        None
    } else if p[0] == '"' {
        Some((Seq::empty(), 1))
    } else if p[0] != '\\' {
        if !is_one_byte(p[0]) {
            None
        } else {
            match spec_read_string(p.drop_first()) {
                Some((v, n)) => Some((seq![p[0]] + v, n + 1)),
                None => None,
            }
        }
    } else {
        let q = p.drop_first();
        if q.len() == 0 || !is_one_byte(q[0]) {
            None
        } else {
            match spec_read_string(q.drop_first()) {
                Some((v, n)) => Some((seq![unescape(q[0])] + v, n + 2)),
                None => None,
            }
        }
    }
}

/// A string literal that reads fine lies within the text, and all the chars it
/// reads are ASCII.
pub proof fn lemma_read_string_ascii(p: Seq<char>)
    ensures
        spec_read_string(p) matches Some((v, n)) ==> 1 <= n <= p.len() && forall|i: int|
            0 <= i < n ==> is_one_byte(#[trigger] p[i]),
    decreases p.len(),
{
    if p.len() > 0 {
        if p[0] == '"' {
            assert(is_one_byte('"'));
        } else if p[0] != '\\' {
            let q = p.drop_first();
            lemma_read_string_ascii(q);
            if let Some((v, n)) = spec_read_string(p) {
                assert forall|i: int| 0 <= i < n implies is_one_byte(#[trigger] p[i]) by {
                    if i > 0 {
                        assert(p[i] == q[i - 1]);
                    }
                }
            }
        } else if p.len() > 1 {
            let q = p.drop_first().drop_first();
            lemma_read_string_ascii(q);
            assert(is_one_byte('\\'));
            assert(p[1] == p.drop_first()[0]);
            if let Some((v, n)) = spec_read_string(p) {
                assert forall|i: int| 0 <= i < n implies is_one_byte(#[trigger] p[i]) by {
                    if i > 1 {
                        assert(p[i] == q[i - 2]);
                    }
                }
            }
        }
    }
}

/// A char that can continue an identifier.
pub open spec fn is_ident_char(c: char) -> bool {
    is_letter(c) || is_ascii_digit(c) || c == '_'
}

/// End (char index) of the run of identifier chars in `s` that starts at `j`.
pub open spec fn ident_end(s: Seq<char>, j: int) -> int
    decreases s.len() - j,
{
    if 0 <= j < s.len() && is_ident_char(s[j]) {
        ident_end(s, j + 1)
    } else {
        j
    }
}

/// End (char index) of the run of ASCII digits in `s` that starts at `j`.
pub open spec fn digits_end(s: Seq<char>, j: int) -> int
    decreases s.len() - j,
{
    if 0 <= j < s.len() && is_ascii_digit(s[j]) {
        digits_end(s, j + 1)
    } else {
        j
    }
}

/// Decimal value of a sequence of digits.
pub open spec fn decimal_value(d: Seq<char>) -> int
    decreases d.len(),
{
    if d.len() == 0 {
        0
    } else {
        decimal_value(d.drop_last()) * 10 + digit_value(d.last())
    }
}

/// What one step of the tokenizer does at the start of the remaining text.
pub enum SpecStep {
    /// Skips whitespace; the remaining text.
    Skip(Seq<char>),
    /// Makes a token; the remaining text.
    Emit(SpecToken, Seq<char>),
    /// The text is refused.
    Fail,
}

/// One step of the tokenizer on a nonempty text `s`. In order: whitespace is
/// skipped (a one-byte split, which fails on a wider char); the symbol table
/// is tried; a `"` starts a string literal, whose token keeps the text after
/// it; a one-char operator makes a token; a letter or `_` starts an identifier,
/// which ends where its char run does, counted in chars but split off in bytes;
/// an ASCII digit starts a number, which is refused where it exceeds
/// `i32::MAX`; anything else is refused. Symbol and one-char tokens keep the
/// text from their start; string, identifier and number tokens keep the text
/// after them.
pub open spec fn token_step(s: Seq<char>) -> SpecStep {
    let c = s[0];
    if char_is_whitespace(c) {
        if is_one_byte(c) {
            SpecStep::Skip(s.drop_first())
        } else {
            SpecStep::Fail
        }
    } else {
        match scan_symbols(s, 0) {
            SymbolScan::Panic => SpecStep::Fail,
            SymbolScan::Found(ty, k) => SpecStep::Emit(SpecToken { ty, input: s }, s.skip(k as int)),
            SymbolScan::NotFound => {
                if c == '"' {
                    let p = s.drop_first();
                    match spec_read_string(p) {
                        None => SpecStep::Fail,
                        Some((v, n)) => match split_off_bytes(p, n) {
                            Some(rest) => SpecStep::Emit(
                                SpecToken { ty: SpecTokenType::Str(v, n as usize), input: rest },
                                rest,
                            ),
                            None => SpecStep::Fail,
                        },
                    }
                } else {
                    match spec_single_letter(c) {
                        Some(ty) => SpecStep::Emit(SpecToken { ty, input: s }, s.drop_first()),
                        None => if is_letter(c) || c == '_' {
                            match byte_split(s, ident_end(s, 1) as nat) {
                                ByteSplit::At(k) => SpecStep::Emit(
                                    SpecToken {
                                        ty: SpecTokenType::Ident(s.take(k as int)),
                                        input: s.skip(k as int),
                                    },
                                    s.skip(k as int),
                                ),
                                _ => SpecStep::Fail,
                            }
                        } else if is_ascii_digit(c) {
                            let n = digits_end(s, 0);
                            let v = decimal_value(s.take(n));
                            if v <= i32::MAX {
                                SpecStep::Emit(
                                    SpecToken { ty: SpecTokenType::Num(v as i32), input: s.skip(n) },
                                    s.skip(n),
                                )
                            } else {
                                SpecStep::Fail
                            }
                        } else {
                            SpecStep::Fail
                        },
                    }
                }
            },
        }
    }
}

/// A symbol found in a text is at least one char long and lies within the text.
pub proof fn lemma_scan_symbols_found(s: Seq<char>, i: int)
    ensures
        scan_symbols(s, i) matches SymbolScan::Found(_, k) ==> 1 <= k <= s.len(),
    decreases spec_symbols().len() - i,
{
    if 0 <= i < spec_symbols().len() {
        let name = spec_symbols()[i].0;
        assert(name.len() > 0);
        lemma_byte_split_at(s, name.len());
        lemma_scan_symbols_found(s, i + 1);
    }
}

/// The run of digits starting at `j` ends within the text, at or after `j`.
pub proof fn lemma_digits_end(s: Seq<char>, j: int)
    requires
        0 <= j <= s.len(),
    ensures
        j <= digits_end(s, j) <= s.len(),
        forall|m: int| j <= m < digits_end(s, j) ==> is_ascii_digit(#[trigger] s[m]),
    decreases s.len() - j,
{
    if j < s.len() && is_ascii_digit(s[j]) {
        lemma_digits_end(s, j + 1);
    }
}

/// The run of identifier chars starting at `j` ends within the text, at or after `j`.
pub proof fn lemma_ident_end(s: Seq<char>, j: int)
    requires
        0 <= j <= s.len(),
    ensures
        j <= ident_end(s, j) <= s.len(),
    decreases s.len() - j,
{
    if j < s.len() && is_ident_char(s[j]) {
        lemma_ident_end(s, j + 1);
    }
}

/// Each step of the tokenizer consumes at least one char.
pub proof fn lemma_token_step_shrinks(s: Seq<char>)
    requires
        s.len() > 0,
    ensures
        token_step(s) matches SpecStep::Skip(rest) ==> rest.len() < s.len(),
        token_step(s) matches SpecStep::Emit(_, rest) ==> rest.len() < s.len(),
{
    lemma_scan_symbols_found(s, 0);
    let p = s.drop_first();
    lemma_read_string_ascii(p);
    if let Some((v, n)) = spec_read_string(p) {
        lemma_byte_split_at(p, n);
    }
    lemma_ident_end(s, 1);
    lemma_byte_split_at(s, ident_end(s, 1) as nat);
    lemma_digits_end(s, 0);
    if is_ascii_digit(s[0]) {
        assert(digits_end(s, 0) == digits_end(s, 1));
        lemma_digits_end(s, 1);
    }
}

/// The tokens of the text `s`; `None` where the text is refused.
pub open spec fn spec_tokenize(s: Seq<char>) -> Option<Seq<SpecToken>>
    decreases s.len(),
{
    if s.len() == 0 {
        Some(Seq::empty())
    } else {
        proof {
            lemma_token_step_shrinks(s);
        }
        match token_step(s) {
            SpecStep::Fail => None,
            SpecStep::Skip(rest) => spec_tokenize(rest),
            SpecStep::Emit(t, rest) => match spec_tokenize(rest) {
                Some(ts) => Some(seq![t] + ts),
                None => None,
            },
        }
    }
}

/// A copy of `t`.
pub(crate) fn copy_token_type(t: &TokenType) -> (r: TokenType)
    ensures
        r@ == t@,
{
    match t {
        TokenType::Num(v) => TokenType::Num(*v),
        TokenType::Str(s, n) => TokenType::Str(s.clone(), *n),
        TokenType::Ident(s) => TokenType::Ident(s.clone()),
        TokenType::Int => TokenType::Int,
        TokenType::Char => TokenType::Char,
        TokenType::Plus => TokenType::Plus,
        TokenType::Minus => TokenType::Minus,
        TokenType::Mul => TokenType::Mul,
        TokenType::And => TokenType::And,
        TokenType::Div => TokenType::Div,
        TokenType::If => TokenType::If,
        TokenType::Else => TokenType::Else,
        TokenType::For => TokenType::For,
        TokenType::EQ => TokenType::EQ,
        TokenType::NE => TokenType::NE,
        TokenType::Semicolon => TokenType::Semicolon,
        TokenType::LeftParen => TokenType::LeftParen,
        TokenType::RightParen => TokenType::RightParen,
        TokenType::LeftBracket => TokenType::LeftBracket,
        TokenType::RightBracket => TokenType::RightBracket,
        TokenType::LeftBrace => TokenType::LeftBrace,
        TokenType::RightBrace => TokenType::RightBrace,
        TokenType::LeftAngleBracket => TokenType::LeftAngleBracket,
        TokenType::RightAngleBracket => TokenType::RightAngleBracket,
        TokenType::Equal => TokenType::Equal,
        TokenType::Logor => TokenType::Logor,
        TokenType::Logand => TokenType::Logand,
        TokenType::Return => TokenType::Return,
        TokenType::Sizeof => TokenType::Sizeof,
        TokenType::Colon => TokenType::Colon,
    }
}

/// Whether `chars[i..k]` spells `name`.
fn spells(chars: &Vec<char>, i: usize, k: usize, name: &str) -> (b: bool)
    requires
        i <= k <= chars.len(),
    ensures
        b == (chars@.subrange(i as int, k as int) == name@),
{
    let n = name.unicode_len();
    if k - i != n {
        return false;
    }
    let mut j: usize = 0;
    while j < n
        invariant
            j <= n,
            n == name@.len(),
            k - i == n,
            i <= k <= chars.len(),
            forall|m: int| 0 <= m < j ==> chars@[i + m] == name@[m],
        decreases n - j,
    {
        if chars[i + j] != name.get_char(j) {
            assert(chars@.subrange(i as int, k as int)[j as int] != name@[j as int]);
            return false;
        }
        j = j + 1;
    }
    assert(chars@.subrange(i as int, k as int) =~= name@);
    true
}

/// Executable outcome of trying the symbol table; `Found` carries the char
/// index where the symbol ends.
enum SymbolHit {
    Found(TokenType, usize),
    NotFound,
    Panic,
}

/// `h` reports `sc` for a text that starts at char index `i`.
spec fn hit_matches(h: SymbolHit, sc: SymbolScan, i: int) -> bool {
    match sc {
        SymbolScan::Found(ty, k) => h matches SymbolHit::Found(t, j) && t@ == ty && j == i + k,
        SymbolScan::NotFound => h is NotFound,
        SymbolScan::Panic => h is Panic,
    }
}

/// Tries the symbol table on `chars[i..]`.
fn scan_symbol_table(chars: &Vec<char>, i: usize) -> (h: SymbolHit)
    requires
        i <= chars.len(),
    ensures
        hit_matches(h, scan_symbols(chars@.skip(i as int), 0), i as int),
{
    let ghost s = chars@.skip(i as int);
    let table = symbols();
    let mut k: usize = 0;
    while k < table.len()
        invariant
            k <= table@.len(),
            i <= chars.len(),
            s == chars@.skip(i as int),
            table@.len() == spec_symbols().len(),
            forall|m: int|
                0 <= m < table@.len() ==> (#[trigger] table@[m]).name@ == spec_symbols()[m].0
                    && table@[m].ty@ == spec_symbols()[m].1,
            scan_symbols(s, k as int) == scan_symbols(s, 0),
        decreases table@.len() - k,
    {
        let name = table[k].name;
        assert(table@[k as int].name@ == spec_symbols()[k as int].0);
        let n = name.unicode_len();
        match find_byte_offset(chars, i, n) {
            Boundary::Short => {},
            Boundary::Inside => {
                return SymbolHit::Panic;
            },
            Boundary::At(j) => {
                proof {
                    lemma_byte_split_at(s, n as nat);
                }
                assert(s.take(j - i) =~= chars@.subrange(i as int, j as int));
                if spells(chars, i, j, name) {
                    return SymbolHit::Found(copy_token_type(&table[k].ty), j);
                }
            },
        }
        k = k + 1;
    }
    SymbolHit::NotFound
}

/// Read result `r` of the text `p`, extended on the left by the value `pre`
/// and count `m` already read.
pub open spec fn extend_read(pre: Seq<char>, m: nat, r: Option<(Seq<char>, nat)>) -> Option<
    (Seq<char>, nat),
> {
    match r {
        Some((v, n)) => Some((pre + v, n + m)),
        None => None,
    }
}

/// Reads the string literal whose opening quote stands right before
/// `chars[start]`: its value and the number of chars read, closing quote
/// included; `None` where the literal is unterminated or holds a char wider
/// than one byte.
fn read_string(src: &str, chars: &Vec<char>, start: usize) -> (r: Option<(String, usize)>)
    requires
        chars@ == src@,
        start <= chars.len(),
    ensures
        match spec_read_string(chars@.skip(start as int)) {
            Some((v, n)) => r matches Some((x, m)) && x@ == v && m == n,
            None => r is None,
        },
{
    let mut sb = String::new();
    let mut j: usize = start;
    loop
        invariant
            start <= j <= chars.len(),
            chars@ == src@,
            spec_read_string(chars@.skip(start as int)) == extend_read(
                sb@,
                (j - start) as nat,
                spec_read_string(chars@.skip(j as int)),
            ),
        decreases chars.len() - j,
    {
        let ghost p = chars@.skip(j as int);
        let ghost old_sb = sb@;
        if j == chars.len() {
            return None;
        }
        let c = chars[j];
        assert(p[0] == c);
        if c == '"' {
            assert(sb@ + Seq::<char>::empty() =~= sb@);
            return Some((sb, j - start + 1));
        }
        if c != '\\' {
            if width(c) != 1 {
                return None;
            }
            sb.append(src.substring_char(j, j + 1));
            assert(src@.subrange(j as int, j + 1) =~= seq![c]);
            assert(p.drop_first() =~= chars@.skip(j + 1));
            j = j + 1;
            proof {
                match spec_read_string(chars@.skip(j as int)) {
                    Some((v, n)) => {
                        assert(old_sb + (seq![c] + v) =~= sb@ + v);
                    },
                    None => {},
                }
            }
        } else {
            if j + 1 == chars.len() {
                assert(p.drop_first().len() == 0);
                return None;
            }
            let e = chars[j + 1];
            assert(p.drop_first()[0] == e);
            if width(e) != 1 {
                return None;
            }
            if e == 'n' {
                sb.append("\n");
                proof {
                    reveal_strlit("\n");
                }
                assert("\n"@ =~= seq!['\n']);
            } else if e == 'r' {
                sb.append("\r");
                proof {
                    reveal_strlit("\r");
                }
                assert("\r"@ =~= seq!['\r']);
            } else if e == 't' {
                sb.append("\t");
                proof {
                    reveal_strlit("\t");
                }
                assert("\t"@ =~= seq!['\t']);
            } else {
                sb.append(src.substring_char(j + 1, j + 2));
                assert(src@.subrange(j + 1, j + 2) =~= seq![e]);
            }
            assert(sb@ =~= old_sb + seq![unescape(e)]);
            assert(p.drop_first().drop_first() =~= chars@.skip(j + 2));
            j = j + 2;
            proof {
                match spec_read_string(chars@.skip(j as int)) {
                    Some((v, n)) => {
                        assert(old_sb + (seq![unescape(e)] + v) =~= sb@ + v);
                    },
                    None => {},
                }
            }
        }
    }
}

/// A sequence of digits has a nonnegative value.
pub proof fn lemma_decimal_value_nonneg(d: Seq<char>)
    requires
        forall|i: int| 0 <= i < d.len() ==> is_ascii_digit(#[trigger] d[i]),
    ensures
        decimal_value(d) >= 0,
    decreases d.len(),
{
    if d.len() > 0 {
        lemma_decimal_value_nonneg(d.drop_last());
    }
}

/// Appending digits never makes the value smaller.
pub proof fn lemma_decimal_value_prefix(d: Seq<char>, m: int)
    requires
        0 <= m <= d.len(),
        forall|i: int| 0 <= i < d.len() ==> is_ascii_digit(#[trigger] d[i]),
    ensures
        decimal_value(d.take(m)) <= decimal_value(d),
    decreases d.len(),
{
    if m < d.len() {
        let e = d.drop_last();
        lemma_decimal_value_prefix(e, m);
        lemma_decimal_value_nonneg(e);
        assert(e.take(m) =~= d.take(m));
    } else {
        assert(d.take(m) =~= d);
    }
}

/// The rest of the source text from char index `i` on.
fn rest_of(src: &str, i: usize) -> (r: String)
    requires
        i <= src@.len(),
    ensures
        r@ == src@.skip(i as int),
{
    let n = src.unicode_len();
    let r = src.substring_char(i, n).to_owned();
    assert(src@.subrange(i as int, n as int) =~= src@.skip(i as int));
    r
}

/// Executable outcome of one tokenizer step; indices are where the remaining
/// text starts.
enum Scanned {
    Skip(usize),
    Emit(Token, usize),
    Fail,
}

/// `r` reports the step `step` taken at char index `i` of the text `chars`.
spec fn scanned_matches(r: Scanned, step: SpecStep, chars: Seq<char>, i: int) -> bool {
    match step {
        SpecStep::Skip(rest) => r matches Scanned::Skip(j) && i < j <= chars.len() && rest
            == chars.skip(j as int),
        SpecStep::Emit(t, rest) => r matches Scanned::Emit(tok, j) && i < j <= chars.len() && tok@
            == t && rest == chars.skip(j as int),
        SpecStep::Fail => r is Fail,
    }
}

/// One step of the tokenizer at char index `i` of the source text.
fn next_token(src: &str, chars: &Vec<char>, i: usize) -> (r: Scanned)
    requires
        chars@ == src@,
        i < chars.len(),
    ensures
        scanned_matches(r, token_step(chars@.skip(i as int)), chars@, i as int),
{
    let ghost s = chars@.skip(i as int);
    let c = chars[i];
    assert(s[0] == c);
    if is_whitespace(c) {
        if width(c) == 1 {
            assert(s.drop_first() =~= chars@.skip(i + 1));
            return Scanned::Skip(i + 1);
        }
        return Scanned::Fail;
    }
    match scan_symbol_table(chars, i) {
        SymbolHit::Panic => {
            return Scanned::Fail;
        },
        SymbolHit::Found(ty, j) => {
            proof {
                lemma_scan_symbols_found(s, 0);
            }
            assert(s.skip(j - i) =~= chars@.skip(j as int));
            return Scanned::Emit(Token { ty: ty, input: rest_of(src, i) }, j);
        },
        SymbolHit::NotFound => {},
    }
    if c == '"' {
        let ghost p = s.drop_first();
        assert(p =~= chars@.skip(i + 1));
        match read_string(src, chars, i + 1) {
            None => {
                return Scanned::Fail;
            },
            Some((v, n)) => {
                proof {
                    lemma_read_string_ascii(p);
                    lemma_byte_split_ascii(p, n as nat);
                }
                let j = i + 1 + n;
                assert(p.skip(n as int) =~= chars@.skip(j as int));
                return Scanned::Emit(Token { ty: TokenType::Str(v, n), input: rest_of(src, j) }, j);
            },
        }
    }
    match TokenType::new_single_letter(c) {
        Some(ty) => {
            assert(s.drop_first() =~= chars@.skip(i + 1));
            return Scanned::Emit(Token { ty: ty, input: rest_of(src, i) }, i + 1);
        },
        None => {},
    }
    if is_alphabetic(c) || c == '_' {
        let mut k: usize = i + 1;
        while k < chars.len() && (is_alphabetic(chars[k]) || ascii_digit(chars[k]) || chars[k]
            == '_')
            invariant
                i < k <= chars.len(),
                s == chars@.skip(i as int),
                ident_end(s, k - i) == ident_end(s, 1),
            decreases chars.len() - k,
        {
            assert(s[k - i] == chars@[k as int]);
            k = k + 1;
        }
        if k < chars.len() {
            assert(s[k - i] == chars@[k as int]);
        }
        assert(ident_end(s, k - i) == k - i);
        match find_byte_offset(chars, i, k - i) {
            Boundary::At(j) => {
                proof {
                    lemma_byte_split_at(s, (k - i) as nat);
                }
                let name = src.substring_char(i, j).to_owned();
                assert(s.take(j - i) =~= chars@.subrange(i as int, j as int));
                assert(s.skip(j - i) =~= chars@.skip(j as int));
                return Scanned::Emit(
                    Token { ty: TokenType::Ident(name), input: rest_of(src, j) },
                    j,
                );
            },
            _ => {
                return Scanned::Fail;
            },
        }
    }
    if ascii_digit(c) {
        let mut k: usize = i;
        let mut val: i64 = 0;
        while k < chars.len() && ascii_digit(chars[k])
            invariant
                i <= k <= chars.len(),
                s == chars@.skip(i as int),
                digits_end(s, k - i) == digits_end(s, 0),
                forall|m: int| 0 <= m < k - i ==> is_ascii_digit(#[trigger] s[m]),
                val == decimal_value(s.take(k - i)),
                0 <= val <= i32::MAX,
                s[0] == c,
                !char_is_whitespace(c) && !is_letter(c) && c != '_' && c != '"',
                scan_symbols(s, 0) is NotFound,
                spec_single_letter(c) is None,
            decreases chars.len() - k,
        {
            let d = chars[k];
            assert(s[k - i] == d);
            assert(s.take(k - i + 1).drop_last() =~= s.take(k - i));
            val = val * 10 + ((d as u32) - ('0' as u32)) as i64;
            assert(val == decimal_value(s.take(k - i + 1)));
            assert(digits_end(s, k - i) == digits_end(s, k - i + 1));
            k = k + 1;
            if val > 2147483647 {
                proof {
                    lemma_digits_end(s, k - i);
                    let n = digits_end(s, 0);
                    assert(k - i <= n);
                    lemma_digits_end(s, 0);
                    let t = s.take(n);
                    assert forall|m: int| 0 <= m < t.len() implies is_ascii_digit(#[trigger] t[m]) by {}
                    lemma_decimal_value_prefix(t, k - i);
                    assert(t.take(k - i) =~= s.take(k - i));
                }
                return Scanned::Fail;
            }
        }
        if k < chars.len() {
            assert(s[k - i] == chars@[k as int]);
        }
        assert(digits_end(s, k - i) == k - i);
        assert(s.skip(k - i) =~= chars@.skip(k as int));
        return Scanned::Emit(
            Token { ty: TokenType::Num(val as i32), input: rest_of(src, k) },
            k,
        );
    }
    Scanned::Fail
}

/// The tokens `pre` followed by the tokenization `r` of the rest of a text.
pub open spec fn prepend_tokens(pre: Seq<SpecToken>, r: Option<Seq<SpecToken>>) -> Option<
    Seq<SpecToken>,
> {
    match r {
        Some(ts) => Some(pre + ts),
        None => None,
    }
}

/// Splits `p` into tokens; `None` exactly where the text is refused.
pub fn try_tokenize(p: String) -> (r: Option<Vec<Token>>)
    ensures
        match spec_tokenize(p@) {
            Some(ts) => r matches Some(v) && tokens_view(v@) == ts,
            None => r is None,
        },
{
    let src = p.as_str();
    let chars = text_chars(src);
    let mut tokens: Vec<Token> = Vec::new();
    let mut i: usize = 0;
    assert(chars@.skip(0) =~= chars@);
    while i < chars.len()
        invariant
            i <= chars.len(),
            chars@ == src@,
            src@ == p@,
            spec_tokenize(p@) == prepend_tokens(
                tokens_view(tokens@),
                spec_tokenize(chars@.skip(i as int)),
            ),
        decreases chars.len() - i,
    {
        let ghost before = tokens_view(tokens@);
        match next_token(src, &chars, i) {
            Scanned::Fail => {
                return None;
            },
            Scanned::Skip(j) => {
                i = j;
            },
            Scanned::Emit(t, j) => {
                let ghost tv = t@;
                tokens.push(t);
                assert(tokens_view(tokens@) =~= before + seq![tv]);
                proof {
                    match spec_tokenize(chars@.skip(j as int)) {
                        Some(ts) => {
                            assert(before + (seq![tv] + ts) =~= tokens_view(tokens@) + ts);
                        },
                        None => {},
                    }
                }
                i = j;
            },
        }
    }
    assert(chars@.skip(i as int) =~= Seq::<char>::empty());
    assert(tokens_view(tokens@) + Seq::<SpecToken>::empty() =~= tokens_view(tokens@));
    Some(tokens)
}

/// Splits `p` into tokens.
pub fn tokenize(p: String) -> (tokens: Vec<Token>)
    requires
        spec_tokenize(p@) is Some,
    ensures
        tokens_view(tokens@) == spec_tokenize(p@).unwrap(),
{
    match try_tokenize(p) {
        Some(tokens) => tokens,
        None => unreached(),
    }
}

/// `t` is a suffix of `s`.
pub open spec fn is_suffix(t: Seq<char>, s: Seq<char>) -> bool {
    t.len() <= s.len() && t == s.skip(s.len() - t.len())
}

proof fn lemma_suffix_trans(a: Seq<char>, b: Seq<char>, c: Seq<char>)
    requires
        is_suffix(a, b),
        is_suffix(b, c),
    ensures
        is_suffix(a, c),
{
    assert(c.skip(c.len() - b.len()).skip(b.len() - a.len()) =~= c.skip(c.len() - a.len()));
}

proof fn lemma_skip_suffix(s: Seq<char>, k: int)
    requires
        0 <= k <= s.len(),
    ensures
        is_suffix(s.skip(k), s),
{
    assert(s.skip(k) =~= s.skip(s.len() - s.skip(k).len()));
}

/// What a tokenizer step leaves is a suffix of the text, and so is the text its
/// token keeps, which is no shorter than what is left.
proof fn lemma_step_suffix(s: Seq<char>)
    requires
        s.len() > 0,
    ensures
        token_step(s) matches SpecStep::Skip(rest) ==> is_suffix(rest, s),
        token_step(s) matches SpecStep::Emit(t, rest) ==> is_suffix(rest, s) && is_suffix(
            t.input,
            s,
        ) && rest.len() <= t.input.len(),
{
    lemma_token_step_shrinks(s);
    let c = s[0];
    if char_is_whitespace(c) {
        lemma_skip_suffix(s, 1);
        assert(s.drop_first() =~= s.skip(1));
    } else {
        lemma_scan_symbols_found(s, 0);
        match scan_symbols(s, 0) {
            SymbolScan::Panic => {},
            SymbolScan::Found(ty, k) => {
                lemma_skip_suffix(s, k as int);
                lemma_skip_suffix(s, 0);
                assert(s.skip(0) =~= s);
            },
            SymbolScan::NotFound => {
                if c == '"' {
                    let p = s.drop_first();
                    if let Some((v, n)) = spec_read_string(p) {
                        lemma_byte_split_at(p, n);
                        if let ByteSplit::At(k) = byte_split(p, n) {
                            assert(p.skip(k as int) =~= s.skip(k as int + 1));
                            lemma_skip_suffix(s, k as int + 1);
                        }
                    }
                } else if spec_single_letter(c) is Some {
                    lemma_skip_suffix(s, 1);
                    assert(s.drop_first() =~= s.skip(1));
                    lemma_skip_suffix(s, 0);
                    assert(s.skip(0) =~= s);
                } else if is_letter(c) || c == '_' {
                    lemma_ident_end(s, 1);
                    lemma_byte_split_at(s, ident_end(s, 1) as nat);
                    if let ByteSplit::At(k) = byte_split(s, ident_end(s, 1) as nat) {
                        lemma_skip_suffix(s, k as int);
                    }
                } else if is_ascii_digit(c) {
                    lemma_digits_end(s, 0);
                    lemma_skip_suffix(s, digits_end(s, 0));
                }
            },
        }
    }
}

/// Each token keeps a suffix of the source text, and a token never keeps
/// less text than a later one.
pub proof fn lemma_token_inputs(s: Seq<char>)
    ensures
        spec_tokenize(s) matches Some(ts) ==> (forall|i: int|
            0 <= i < ts.len() ==> is_suffix(#[trigger] ts[i].input, s)) && (forall|i: int, j: int|
            0 <= i < j < ts.len() ==> (#[trigger] ts[j]).input.len() <= (#[trigger] ts[i]).input.len()),
    decreases s.len(),
{
    if s.len() > 0 {
        lemma_token_step_shrinks(s);
        lemma_step_suffix(s);
        match token_step(s) {
            SpecStep::Fail => {},
            SpecStep::Skip(rest) => {
                lemma_token_inputs(rest);
                if let Some(ts) = spec_tokenize(rest) {
                    assert forall|i: int| 0 <= i < ts.len() implies is_suffix(
                        #[trigger] ts[i].input,
                        s,
                    ) by {
                        lemma_suffix_trans(ts[i].input, rest, s);
                    }
                }
            },
            SpecStep::Emit(t, rest) => {
                lemma_token_inputs(rest);
                if let Some(ts) = spec_tokenize(rest) {
                    let all = seq![t] + ts;
                    assert forall|i: int| 0 <= i < all.len() implies is_suffix(
                        #[trigger] all[i].input,
                        s,
                    ) by {
                        if i > 0 {
                            assert(all[i] == ts[i - 1]);
                            lemma_suffix_trans(ts[i - 1].input, rest, s);
                        }
                    }
                    assert forall|i: int, j: int|
                        0 <= i < j < all.len() implies (#[trigger] all[j]).input.len() <= (
                        #[trigger] all[i]).input.len() by {
                        assert(all[j] == ts[j - 1]);
                        if i > 0 {
                            assert(all[i] == ts[i - 1]);
                        } else {
                            assert(is_suffix(ts[j - 1].input, rest));
                        }
                    }
                }
            },
        }
    }
}

/// What one token step makes: numbers are non-negative, identifiers are not
/// empty, string literals take at least their closing quote.
proof fn lemma_step_payload(s: Seq<char>)
    requires
        0 < s.len() <= usize::MAX,
    ensures
        token_step(s) matches SpecStep::Emit(t, _) ==> token_payload_ok(t.ty),
{
    let c = s[0];
    if !char_is_whitespace(c) {
        match scan_symbols(s, 0) {
            SymbolScan::Panic => {},
            SymbolScan::Found(ty, k) => {
                lemma_symbol_kinds(s, 0);
            },
            SymbolScan::NotFound => {
                if c == '"' {
                    lemma_read_string_ascii(s.drop_first());
                } else if is_letter(c) || c == '_' {
                    lemma_ident_end(s, 1);
                    lemma_byte_split_at(s, ident_end(s, 1) as nat);
                } else if is_ascii_digit(c) {
                    lemma_digits_end(s, 0);
                    let n = digits_end(s, 0);
                    let d = s.take(n);
                    assert forall|i: int| 0 <= i < d.len() implies is_ascii_digit(#[trigger] d[i]) by {
                        assert(d[i] == s[i]);
                    }
                    lemma_decimal_value_nonneg(d);
                    assert(d =~= s.take(digits_end(s, 0)));
                    let v = decimal_value(d);
                    if v <= i32::MAX {
                        assert((v as i32) >= 0);
                    }
                }
            },
        }
    }
}

/// The kinds the symbol table gives carry no payload.
proof fn lemma_symbol_kinds(s: Seq<char>, i: int)
    ensures
        scan_symbols(s, i) matches SymbolScan::Found(ty, _) ==> token_payload_ok(ty),
    decreases spec_symbols().len() - i,
{
    if 0 <= i < spec_symbols().len() {
        let ty = spec_symbols()[i].1;
        assert(!(ty is Num) && !(ty is Ident) && !(ty is Str));
        lemma_symbol_kinds(s, i + 1);
    }
}

/// The payload of a token kind is well formed: a number is non-negative, an
/// identifier is not empty, a string literal takes at least one char.
pub open spec fn token_payload_ok(ty: SpecTokenType) -> bool {
    match ty {
        SpecTokenType::Num(v) => v >= 0,
        SpecTokenType::Ident(name) => name.len() > 0,
        SpecTokenType::Str(_, n) => n >= 1,
        _ => true,
    }
}

/// The tokenizer makes only non-negative numbers, non-empty identifiers,
/// and string literals that take at least their closing quote.
pub proof fn lemma_token_payloads(s: Seq<char>)
    requires
        s.len() <= usize::MAX,
    ensures
        spec_tokenize(s) matches Some(ts) ==> forall|i: int|
            0 <= i < ts.len() ==> token_payload_ok(#[trigger] ts[i].ty),
    decreases s.len(),
{
    if s.len() > 0 {
        lemma_token_step_shrinks(s);
        lemma_step_payload(s);
        match token_step(s) {
            SpecStep::Fail => {},
            SpecStep::Skip(rest) => {
                lemma_token_payloads(rest);
            },
            SpecStep::Emit(t, rest) => {
                lemma_token_payloads(rest);
                if let Some(ts) = spec_tokenize(rest) {
                    let all = seq![t] + ts;
                    assert forall|i: int| 0 <= i < all.len() implies token_payload_ok(
                        #[trigger] all[i].ty,
                    ) by {
                        if i > 0 {
                            assert(all[i] == ts[i - 1]);
                        }
                    }
                }
            },
        }
    }
}

/// All chars of `s` are ASCII.
pub open spec fn all_ascii(s: Seq<char>) -> bool {
    forall|i: int| 0 <= i < s.len() ==> is_one_byte(#[trigger] s[i])
}

/// The kinds of a sequence of tokens, in order.
pub open spec fn token_kinds(ts: Seq<SpecToken>) -> Seq<SpecTokenType> {
    ts.map_values(|t: SpecToken| t.ty)
}

/// No char of `name` is a space.
spec fn no_space(name: Seq<char>) -> bool {
    forall|j: int| 0 <= j < name.len() ==> name[j] != ' '
}

/// No symbol name holds a space.
proof fn lemma_names_no_space(i: int)
    requires
        0 <= i < spec_symbols().len(),
    ensures
        no_space(spec_symbols()[i].0),
{
    assert(no_space(seq!['c', 'h', 'a', 'r']));
    assert(no_space(seq!['e', 'l', 's', 'e']));
    assert(no_space(seq!['f', 'o', 'r']));
    assert(no_space(seq!['i', 'f']));
    assert(no_space(seq!['i', 'n', 't']));
    assert(no_space(seq!['r', 'e', 't', 'u', 'r', 'n']));
    assert(no_space(seq!['s', 'i', 'z', 'e', 'o', 'f']));
    assert(no_space(seq!['&', '&']));
    assert(no_space(seq!['|', '|']));
    assert(no_space(seq!['=', '=']));
    assert(no_space(seq!['!', '=']));
}

/// A prefix of an ASCII text is ASCII.
proof fn lemma_ascii_prefix(s: Seq<char>, u: Seq<char>)
    requires
        all_ascii(s + u),
    ensures
        all_ascii(s),
{
    assert forall|m: int| 0 <= m < s.len() implies is_one_byte(#[trigger] s[m]) by {
        assert(s[m] == (s + u)[m]);
    }
}

/// A suffix of an ASCII text is ASCII.
proof fn lemma_ascii_skip(s: Seq<char>, k: int)
    requires
        all_ascii(s),
        0 <= k <= s.len(),
    ensures
        all_ascii(s.skip(k)),
{
    assert forall|m: int| 0 <= m < s.skip(k).len() implies is_one_byte(#[trigger] s.skip(k)[m]) by {
        assert(s.skip(k)[m] == s[m + k]);
    }
}

/// A space after the text decides no symbol: the table finds in `s + u` what it
/// finds in `s`.
proof fn lemma_scan_symbols_join(s: Seq<char>, u: Seq<char>, i: int)
    requires
        all_ascii(s + u),
        u.len() > 0,
        u[0] == ' ',
    ensures
        scan_symbols(s, i) matches SymbolScan::Found(ty, k) ==> scan_symbols(s + u, i)
            == SymbolScan::Found(ty, k),
        scan_symbols(s, i) is NotFound ==> scan_symbols(s + u, i) is NotFound,
    decreases spec_symbols().len() - i,
{
    if 0 <= i < spec_symbols().len() {
        let x = s + u;
        let name = spec_symbols()[i].0;
        let n = name.len();
        lemma_ascii_prefix(s, u);
        if n <= s.len() {
            lemma_byte_split_ascii(s, n);
            lemma_byte_split_ascii(x, n);
            assert(x.take(n as int) =~= s.take(n as int));
        } else {
            lemma_byte_split_ascii_short(s, n);
            if n <= x.len() {
                lemma_byte_split_ascii(x, n);
                lemma_names_no_space(i);
                assert(x.take(n as int)[s.len() as int] == ' ');
                assert(x.take(n as int) != name);
            } else {
                lemma_byte_split_ascii_short(x, n);
            }
        }
        lemma_scan_symbols_join(s, u, i + 1);
    }
}

/// Text after a string literal that reads fine does not change what it reads.
proof fn lemma_read_string_join(p: Seq<char>, x: Seq<char>)
    ensures
        spec_read_string(p) is Some ==> spec_read_string(p + x) == spec_read_string(p),
    decreases p.len(),
{
    if p.len() > 0 {
        let px = p + x;
        assert(px[0] == p[0]);
        if p[0] == '"' {
        } else if p[0] != '\\' {
            assert(px.drop_first() =~= p.drop_first() + x);
            lemma_read_string_join(p.drop_first(), x);
        } else {
            let q = p.drop_first();
            assert(px.drop_first() =~= q + x);
            if q.len() > 0 {
                assert((q + x)[0] == q[0]);
                assert((q + x).drop_first() =~= q.drop_first() + x);
                lemma_read_string_join(q.drop_first(), x);
            }
        }
    }
}

/// A run of identifier chars stops at a space.
proof fn lemma_ident_end_join(s: Seq<char>, u: Seq<char>, j: int)
    requires
        0 <= j <= s.len(),
        u.len() > 0,
        u[0] == ' ',
    ensures
        ident_end(s + u, j) == ident_end(s, j),
    decreases s.len() - j,
{
    if j < s.len() {
        assert((s + u)[j] == s[j]);
        lemma_ident_end_join(s, u, j + 1);
    } else {
        assert((s + u)[j] == ' ');
    }
}

/// A run of digits stops at a space.
proof fn lemma_digits_end_join(s: Seq<char>, u: Seq<char>, j: int)
    requires
        0 <= j <= s.len(),
        u.len() > 0,
        u[0] == ' ',
    ensures
        digits_end(s + u, j) == digits_end(s, j),
    decreases s.len() - j,
{
    if j < s.len() {
        assert((s + u)[j] == s[j]);
        lemma_digits_end_join(s, u, j + 1);
    } else {
        assert((s + u)[j] == ' ');
    }
}

/// In ASCII text, a tokenizer step that succeeds on `s` takes the same step on
/// `s` followed by a space and more text.
proof fn lemma_step_join(s: Seq<char>, u: Seq<char>)
    requires
        s.len() > 0,
        all_ascii(s + u),
        u.len() > 0,
        u[0] == ' ',
        !(token_step(s) is Fail),
    ensures
        token_step(s) matches SpecStep::Skip(rest) ==> token_step(s + u) == SpecStep::Skip(
            rest + u,
        ),
        token_step(s) matches SpecStep::Emit(t, rest) ==> token_step(s + u) matches SpecStep::Emit(
            t2,
            rest2,
        ) && t2.ty == t.ty && rest2 == rest + u,
{
    let x = s + u;
    let c = s[0];
    assert(x[0] == c);
    lemma_ascii_prefix(s, u);
    if char_is_whitespace(c) {
        assert(x.drop_first() =~= s.drop_first() + u);
    } else {
        lemma_scan_symbols_join(s, u, 0);
        lemma_scan_symbols_found(s, 0);
        match scan_symbols(s, 0) {
            SymbolScan::Panic => {},
            SymbolScan::Found(ty, k) => {
                assert(x.skip(k as int) =~= s.skip(k as int) + u);
            },
            SymbolScan::NotFound => {
                if c == '"' {
                    let p = s.drop_first();
                    assert(x.drop_first() =~= p + u);
                    lemma_read_string_join(p, u);
                    lemma_read_string_ascii(p);
                    if let Some((v, n)) = spec_read_string(p) {
                        lemma_byte_split_ascii(p, n);
                        assert forall|m: int| 0 <= m < n implies is_one_byte(
                            #[trigger] (p + u)[m],
                        ) by {
                            assert((p + u)[m] == p[m]);
                        }
                        lemma_byte_split_ascii(p + u, n);
                        assert((p + u).skip(n as int) =~= p.skip(n as int) + u);
                    }
                } else if spec_single_letter(c) is Some {
                    assert(x.drop_first() =~= s.drop_first() + u);
                } else if is_letter(c) || c == '_' {
                    lemma_ident_end_join(s, u, 1);
                    lemma_ident_end(s, 1);
                    let e = ident_end(s, 1);
                    lemma_byte_split_ascii(s, e as nat);
                    lemma_byte_split_ascii(x, e as nat);
                    assert(x.take(e) =~= s.take(e));
                    assert(x.skip(e) =~= s.skip(e) + u);
                } else if is_ascii_digit(c) {
                    lemma_digits_end_join(s, u, 0);
                    lemma_digits_end(s, 0);
                    let e = digits_end(s, 0);
                    assert(x.take(e) =~= s.take(e));
                    assert(x.skip(e) =~= s.skip(e) + u);
                }
            },
        }
    }
}

/// Tokenizing ASCII text `s` followed by a space and more text `u` gives the
/// kinds of `s`'s tokens followed by those of `u`'s.
proof fn lemma_tokenize_join_rest(s: Seq<char>, u: Seq<char>)
    requires
        all_ascii(s + u),
        u.len() > 0,
        u[0] == ' ',
        spec_tokenize(s) is Some,
        spec_tokenize(u) is Some,
    ensures
        spec_tokenize(s + u) matches Some(ts) && token_kinds(ts) == token_kinds(
            spec_tokenize(s).unwrap(),
        ) + token_kinds(spec_tokenize(u).unwrap()),
    decreases s.len(),
{
    let x = s + u;
    if s.len() == 0 {
        assert(x =~= u);
        assert(token_kinds(spec_tokenize(s).unwrap()) =~= Seq::<SpecTokenType>::empty());
        assert(token_kinds(spec_tokenize(u).unwrap()) =~= Seq::<SpecTokenType>::empty()
            + token_kinds(spec_tokenize(u).unwrap()));
    } else {
        lemma_token_step_shrinks(s);
        lemma_step_suffix(s);
        lemma_step_join(s, u);
        assert(x.len() > 0);
        match token_step(s) {
            SpecStep::Fail => {},
            SpecStep::Skip(rest) => {
                let k = s.len() - rest.len();
                assert(rest + u =~= x.skip(k));
                lemma_ascii_skip(x, k);
                lemma_tokenize_join_rest(rest, u);
            },
            SpecStep::Emit(t, rest) => {
                let k = s.len() - rest.len();
                assert(rest + u =~= x.skip(k));
                lemma_ascii_skip(x, k);
                lemma_tokenize_join_rest(rest, u);
                let t2 = token_step(x)->Emit_0;
                let ts = spec_tokenize(rest).unwrap();
                let ts2 = spec_tokenize(rest + u).unwrap();
                let us = spec_tokenize(u).unwrap();
                assert(token_kinds(seq![t2] + ts2) =~= seq![t2.ty] + token_kinds(ts2));
                assert(token_kinds(seq![t] + ts) =~= seq![t.ty] + token_kinds(ts));
                assert(seq![t.ty] + (token_kinds(ts) + token_kinds(us)) =~= (seq![t.ty]
                    + token_kinds(ts)) + token_kinds(us));
            },
        }
    }
}

/// Tokenizing two ASCII texts joined by a space gives the kinds of the first
/// text's tokens followed by those of the second's; only the `input` fields,
/// which keep the rest of the text, differ.
pub proof fn lemma_tokenize_join(a: Seq<char>, b: Seq<char>)
    requires
        all_ascii(a),
        all_ascii(b),
        spec_tokenize(a) is Some,
        spec_tokenize(b) is Some,
    ensures
        spec_tokenize(a + seq![' '] + b) matches Some(ts) && token_kinds(ts) == token_kinds(
            spec_tokenize(a).unwrap(),
        ) + token_kinds(spec_tokenize(b).unwrap()),
{
    let u = seq![' '] + b;
    assert(a + seq![' '] + b =~= a + u);
    assert(u.drop_first() =~= b);
    assert(u[0] == ' ');
    assert forall|m: int| 0 <= m < (a + u).len() implies is_one_byte(#[trigger] (a + u)[m]) by {
        if m < a.len() {
            assert((a + u)[m] == a[m]);
        } else if m > a.len() {
            assert((a + u)[m] == b[m - a.len() - 1]);
        }
    }
    assert(token_step(u) == SpecStep::Skip(b));
    lemma_tokenize_join_rest(a, u);
}

/// A char that may start a name of the symbol table: a lowercase ASCII letter,
/// `&`, `|`, `=` or `!`.
spec fn symbol_start(c: char) -> bool {
    ('a' <= c <= 'z') || c == '&' || c == '|' || c == '=' || c == '!'
}

/// Every symbol name is non-empty and starts with a lowercase letter, `&`, `|`,
/// `=` or `!`.
proof fn lemma_symbol_starts(i: int)
    requires
        0 <= i < spec_symbols().len(),
    ensures
        spec_symbols()[i].0.len() > 0,
        symbol_start(spec_symbols()[i].0[0]),
{
    assert(symbol_start(seq!['c', 'h', 'a', 'r'][0]));
    assert(symbol_start(seq!['e', 'l', 's', 'e'][0]));
    assert(symbol_start(seq!['f', 'o', 'r'][0]));
    assert(symbol_start(seq!['i', 'f'][0]));
    assert(symbol_start(seq!['i', 'n', 't'][0]));
    assert(symbol_start(seq!['r', 'e', 't', 'u', 'r', 'n'][0]));
    assert(symbol_start(seq!['s', 'i', 'z', 'e', 'o', 'f'][0]));
    assert(symbol_start(seq!['&', '&'][0]));
    assert(symbol_start(seq!['|', '|'][0]));
    assert(symbol_start(seq!['=', '='][0]));
    assert(symbol_start(seq!['!', '='][0]));
}

/// `name` is a prefix of `s`.
pub open spec fn is_prefix_of(name: Seq<char>, s: Seq<char>) -> bool {
    name.len() <= s.len() && s.take(name.len() as int) == name
}

/// Some name of the symbol table is a prefix of `s`.
pub open spec fn starts_with_symbol(s: Seq<char>) -> bool {
    exists|i: int| 0 <= i < spec_symbols().len() && is_prefix_of(#[trigger] spec_symbols()[i].0, s)
}

/// In ASCII text that no symbol name from index `i` on starts, the table finds nothing.
proof fn lemma_scan_none(s: Seq<char>, i: int)
    requires
        all_ascii(s),
        forall|j: int| i <= j < spec_symbols().len() ==> !is_prefix_of(#[trigger] spec_symbols()[j].0, s),
    ensures
        scan_symbols(s, i) is NotFound,
    decreases spec_symbols().len() - i,
{
    if 0 <= i < spec_symbols().len() {
        let name = spec_symbols()[i].0;
        let n = name.len();
        assert(!is_prefix_of(spec_symbols()[i].0, s));
        if n <= s.len() {
            lemma_byte_split_ascii(s, n);
        } else {
            lemma_byte_split_ascii_short(s, n);
        }
        lemma_scan_none(s, i + 1);
    }
}

/// In ASCII text whose first char starts no symbol name, the table finds nothing.
proof fn lemma_scan_none_first(s: Seq<char>)
    requires
        all_ascii(s),
        s.len() > 0,
        !symbol_start(s[0]),
    ensures
        scan_symbols(s, 0) is NotFound,
{
    assert forall|j: int| 0 <= j < spec_symbols().len() implies !is_prefix_of(
        #[trigger] spec_symbols()[j].0,
        s,
    ) by {
        lemma_symbol_starts(j);
        let name = spec_symbols()[j].0;
        if is_prefix_of(name, s) {
            assert(s.take(name.len() as int)[0] == s[0]);
        }
    }
    lemma_scan_none(s, 0);
}

/// An ASCII letter, an ASCII digit or `_`: the chars a C identifier is made of.
pub open spec fn is_word_char(c: char) -> bool {
    ('a' <= c <= 'z') || ('A' <= c <= 'Z') || ('0' <= c <= '9') || c == '_'
}

/// The identifier run in ASCII text ends at the first char that is not a word char.
proof fn lemma_ident_end_word(s: Seq<char>, j: int, k: int)
    requires
        all_ascii(s),
        1 <= j <= k <= s.len(),
        forall|i: int| 1 <= i < k ==> is_word_char(#[trigger] s[i]),
        k < s.len() ==> !is_word_char(s[k]),
    ensures
        ident_end(s, j) == k,
    decreases k - j,
{
    if j < k {
        assert(is_word_char(s[j]));
        assert(is_one_byte(s[j]));
        lemma_ident_end_word(s, j + 1, k);
    } else if k < s.len() {
        assert(is_one_byte(s[k]));
    }
}

/// In ASCII text that starts with a letter or `_` and with no keyword or symbol
/// name, the first token is the identifier made of the longest run of letters,
/// digits and `_` there; it keeps the text after the run, and tokenizing goes on
/// from there.
pub proof fn lemma_identifier_token(s: Seq<char>, k: int)
    requires
        all_ascii(s),
        1 <= k <= s.len(),
        ('a' <= s[0] <= 'z') || ('A' <= s[0] <= 'Z') || s[0] == '_',
        forall|i: int| 1 <= i < k ==> is_word_char(#[trigger] s[i]),
        k < s.len() ==> !is_word_char(s[k]),
        !starts_with_symbol(s),
    ensures
        spec_tokenize(s) == prepend_tokens(
            seq![SpecToken { ty: SpecTokenType::Ident(s.take(k)), input: s.skip(k) }],
            spec_tokenize(s.skip(k)),
        ),
{
    let c = s[0];
    assert(is_one_byte(c));
    assert forall|j: int| 0 <= j < spec_symbols().len() implies !is_prefix_of(
        #[trigger] spec_symbols()[j].0,
        s,
    ) by {}
    lemma_scan_none(s, 0);
    lemma_ident_end_word(s, 1, k);
    lemma_byte_split_ascii(s, k as nat);
    lemma_token_step_shrinks(s);
    assert(token_step(s) == SpecStep::Emit(
        SpecToken { ty: SpecTokenType::Ident(s.take(k)), input: s.skip(k) },
        s.skip(k),
    ));
}

/// A closing quote ends a string literal: empty value, one char read.
pub proof fn lemma_string_close(p: Seq<char>)
    ensures
        spec_read_string(seq!['"'] + p) == Some((Seq::<char>::empty(), 1nat)),
{
    assert((seq!['"'] + p)[0] == '"');
}

/// A plain ASCII char other than `"` and `\` stands for itself in a string
/// literal, read as one char.
pub proof fn lemma_string_plain(c: char, p: Seq<char>)
    requires
        is_one_byte(c),
        c != '"',
        c != '\\',
    ensures
        spec_read_string(seq![c] + p) == match spec_read_string(p) {
            Some((v, n)) => Some((seq![c] + v, n + 1)),
            None => None,
        },
{
    let x = seq![c] + p;
    assert(x[0] == c);
    assert(x.drop_first() =~= p);
}

/// In a string literal, `\n`, `\r` and `\t` stand for newline, carriage return
/// and tab, and `\` before any other ASCII char stands for that char; an escape
/// is read as two chars.
pub proof fn lemma_string_escape(e: char, p: Seq<char>)
    requires
        is_one_byte(e),
    ensures
        spec_read_string(seq!['\\', e] + p) == match spec_read_string(p) {
            Some((v, n)) => Some(
                (
                    seq![
                        if e == 'n' {
                            '\n'
                        } else if e == 'r' {
                            '\r'
                        } else if e == 't' {
                            '\t'
                        } else {
                            e
                        },
                    ] + v,
                    n + 2,
                ),
            ),
            None => None,
        },
{
    let x = seq!['\\', e] + p;
    assert(x[0] == '\\');
    let q = x.drop_first();
    assert(q[0] == e);
    assert(q.drop_first() =~= p);
}

/// In ASCII text, a `"` starts a string literal token: its value and length are
/// what reading the literal gives, it keeps the text after the closing quote,
/// and tokenizing goes on from there.
pub proof fn lemma_string_token(p: Seq<char>)
    requires
        all_ascii(p),
    ensures
        spec_tokenize(seq!['"'] + p) == match spec_read_string(p) {
            Some((v, n)) => prepend_tokens(
                seq![SpecToken { ty: SpecTokenType::Str(v, n as usize), input: p.skip(n as int) }],
                spec_tokenize(p.skip(n as int)),
            ),
            None => None,
        },
{
    let s = seq!['"'] + p;
    assert(s[0] == '"');
    assert(s.drop_first() =~= p);
    assert forall|i: int| 0 <= i < s.len() implies is_one_byte(#[trigger] s[i]) by {
        if i > 0 {
            assert(s[i] == p[i - 1]);
        }
    }
    lemma_scan_none_first(s);
    lemma_read_string_ascii(p);
    if let Some((v, n)) = spec_read_string(p) {
        lemma_byte_split_ascii(p, n);
    }
    lemma_token_step_shrinks(s);
}

/// The digit run of a text made of ASCII digits is the whole text.
proof fn lemma_digits_end_all(s: Seq<char>, j: int)
    requires
        0 <= j <= s.len(),
        forall|i: int| 0 <= i < s.len() ==> '0' <= #[trigger] s[i] <= '9',
    ensures
        digits_end(s, j) == s.len(),
    decreases s.len() - j,
{
    if j < s.len() {
        assert('0' <= s[j] <= '9');
        lemma_digits_end_all(s, j + 1);
    }
}

/// A text made of ASCII digits `0`..`9` whose decimal value fits in `i32` is one
/// number token of that value, which keeps no text.
pub proof fn lemma_number_token(s: Seq<char>)
    requires
        s.len() > 0,
        forall|i: int| 0 <= i < s.len() ==> '0' <= #[trigger] s[i] <= '9',
        decimal_value(s) <= i32::MAX,
    ensures
        spec_tokenize(s) == Some(
            seq![SpecToken { ty: SpecTokenType::Num(decimal_value(s) as i32), input: Seq::empty() }],
        ),
{
    assert forall|i: int| 0 <= i < s.len() implies is_one_byte(#[trigger] s[i]) by {
        assert('0' <= s[i] <= '9');
    }
    assert('0' <= s[0] <= '9');
    lemma_scan_none_first(s);
    lemma_digits_end_all(s, 0);
    assert(s.take(s.len() as int) =~= s);
    assert(s.skip(s.len() as int) =~= Seq::<char>::empty());
    assert(spec_tokenize(Seq::<char>::empty()) == Some(Seq::<SpecToken>::empty()));
    lemma_token_step_shrinks(s);
    assert(token_step(s) == SpecStep::Emit(
        SpecToken { ty: SpecTokenType::Num(decimal_value(s) as i32), input: Seq::empty() },
        Seq::empty(),
    ));
    assert(seq![SpecToken { ty: SpecTokenType::Num(decimal_value(s) as i32), input: Seq::empty() }]
        + Seq::<SpecToken>::empty() =~= seq![
        SpecToken { ty: SpecTokenType::Num(decimal_value(s) as i32), input: Seq::empty() },
    ]);
}

/// A single ASCII digit `d` is the number `d - '0'`.
pub proof fn lemma_single_digit(d: char)
    requires
        '0' <= d <= '9',
    ensures
        spec_tokenize(seq![d]) == Some(
            seq![
                SpecToken {
                    ty: SpecTokenType::Num(((d as u32) - ('0' as u32)) as i32),
                    input: Seq::empty(),
                },
            ],
        ),
{
    let s = seq![d];
    assert(s.drop_last() =~= Seq::<char>::empty());
    assert(s.last() == d);
    assert(decimal_value(Seq::<char>::empty()) == 0);
    assert(decimal_value(s) == (d as u32) - ('0' as u32));
    lemma_number_token(s);
}

/// Appending an ASCII digit to a number multiplies its value by ten and adds the
/// digit's value.
pub proof fn lemma_number_append_digit(s: Seq<char>, d: char)
    requires
        s.len() > 0,
        forall|i: int| 0 <= i < s.len() ==> '0' <= #[trigger] s[i] <= '9',
        '0' <= d <= '9',
        decimal_value(s.push(d)) <= i32::MAX,
    ensures
        ({
            &&& spec_tokenize(s.push(d)) matches Some(ts)
            &&& spec_tokenize(s) matches Some(us)
            &&& ts.len() == 1
            &&& us.len() == 1
            &&& ts[0].ty matches SpecTokenType::Num(v)
            &&& us[0].ty matches SpecTokenType::Num(u)
            &&& v == 10 * u + ((d as u32) - ('0' as u32))
        }),
{
    let t = s.push(d);
    assert(t.drop_last() =~= s);
    assert forall|i: int| 0 <= i < t.len() implies '0' <= #[trigger] t[i] <= '9' by {
        if i < s.len() {
            assert(t[i] == s[i]);
        }
    }
    assert forall|i: int| 0 <= i < s.len() implies is_ascii_digit(#[trigger] s[i]) by {
        assert('0' <= s[i] <= '9');
    }
    lemma_decimal_value_nonneg(s);
    lemma_number_token(s);
    lemma_number_token(t);
}

/// A leading ASCII space, tab, newline, carriage return, vertical tab or form
/// feed changes nothing in the tokens.
pub proof fn lemma_ascii_space_skipped(c: char, s: Seq<char>)
    requires
        c == ' ' || c == '\t' || c == '\n' || c == '\r' || c == '\u{b}' || c == '\u{c}',
    ensures
        spec_tokenize(seq![c] + s) == spec_tokenize(s),
{
    let x = seq![c] + s;
    assert(x[0] == c);
    assert(x.drop_first() =~= s);
    lemma_token_step_shrinks(x);
}

} // verus!

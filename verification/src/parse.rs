//! Recursive-descent parser: turns tokens into syntax trees of functions.

use vstd::prelude::*;
use crate::grammar::{
    SpecNode, SpecNodeType, lemma_unfold_add, lemma_unfold_add_rest, lemma_unfold_assign, lemma_unfold_call_args, lemma_unfold_logand, lemma_unfold_logand_rest, lemma_unfold_logor, lemma_unfold_logor_rest, lemma_unfold_mul, lemma_unfold_mul_rest, lemma_unfold_postfix, lemma_unfold_postfix_rest, lemma_unfold_primary, lemma_unfold_rel, lemma_unfold_rel_rest, lemma_unfold_unary, array_of, new_node, spec_ctype, spec_dims, spec_pointers, spec_read_array, spec_decl, spec_param, spec_expr_stmt, lemma_dims_progress, spec_stmt, spec_stmts, spec_compound_stmt, lemma_unfold_stmt, lemma_unfold_stmts, lemma_unfold_compound_stmt, spec_function, spec_functions, spec_param_list, spec_params, spec_parse, spec_add, spec_add_rest, spec_assign, spec_call_args, spec_expect, spec_logand, spec_logand_rest, spec_logor, spec_logor_rest, spec_mul, spec_mul_rest, spec_postfix, spec_postfix_rest, spec_primary, spec_rel, spec_rel_rest, spec_unary,
};
use crate::token::{SpecTokenType, Token, TokenType, copy_token_type};

verus! {

/// Kind of a syntax tree node, with its children.
#[derive(Debug)]
pub enum NodeType {
    /// Number literal.
    Num(i32),
    /// Identifier.
    Ident(String),
    /// Variable definition: name, initializer.
    Vardef(String, Option<Box<Node>>),
    /// Variable reference.
    Lvar,
    /// Binary operation: operator, left-hand side, right-hand side.
    BinOp(TokenType, Box<Node>, Box<Node>),
    /// `if ( cond ) then else els`
    If(Box<Node>, Box<Node>, Option<Box<Node>>),
    /// `for ( init; cond; inc ) body`
    For(Box<Node>, Box<Node>, Box<Node>, Box<Node>),
    /// Address-of (`&`).
    Addr(Box<Node>),
    /// Pointer dereference (`*`).
    Deref(Box<Node>),
    /// `&&`
    Logand(Box<Node>, Box<Node>),
    /// `||`
    Logor(Box<Node>, Box<Node>),
    /// `return` statement.
    Return(Box<Node>),
    /// `sizeof` expression.
    Sizeof(Box<Node>),
    /// Function call: name, arguments.
    Call(String, Vec<Node>),
    /// Function definition: name, parameters, body.
    Func(String, Vec<Node>, Box<Node>),
    /// Expression statement.
    ExprStmt(Box<Node>),
    /// Compound statement.
    CompStmt(Vec<Node>),
}

/// A C type.
#[derive(Debug)]
pub enum Ctype {
    Int,
    /// Pointer to.
    Ptr(Box<Type>),
    /// Array of, with its length.
    Ary(Box<Type>, usize),
}

impl Default for Ctype {
    fn default() -> (c: Ctype)
        ensures
            c == Ctype::Int,
    {
        Ctype::Int
    }
}

/// A C type, as nodes carry it.
#[derive(Debug)]
pub struct Type {
    pub ty: Ctype,
}

impl Default for Type {
    fn default() -> (t: Type)
        ensures
            t == (Type { ty: Ctype::Int }),
    {
        Type { ty: Ctype::default() }
    }
}

impl View for Type {
    type V = Type;

    open spec fn view(&self) -> Type {
        *self
    }
}

impl Type {
    pub fn new(ty: Ctype) -> (t: Self)
        ensures
            t == (Type { ty }),
    {
        Type { ty: ty }
    }
}

/// A syntax tree node.
#[derive(Debug)]
pub struct Node {
    /// Node kind.
    pub op: NodeType,
    /// C type.
    pub ty: Box<Type>,
    /// Frame size (function definitions).
    pub stacksize: usize,
    /// Frame offset (local variables).
    pub offset: usize,
}

/// Model of a node.
pub open spec fn node_view(n: Node) -> SpecNode
    decreases n,
{
    SpecNode { op: op_view(n.op), ty: *n.ty, stacksize: n.stacksize, offset: n.offset }
}

/// Model of an optional child.
pub open spec fn opt_view(o: Option<Box<Node>>) -> Option<Box<SpecNode>>
    decreases o,
{
    match o {
        Some(b) => Some(Box::new(node_view(*b))),
        None => None,
    }
}

/// Model of a node kind.
pub open spec fn op_view(op: NodeType) -> SpecNodeType
    decreases op,
{
    match op {
        NodeType::Num(v) => SpecNodeType::Num(v),
        NodeType::Ident(s) => SpecNodeType::Ident(s@),
        NodeType::Vardef(s, init) => SpecNodeType::Vardef(s@, opt_view(init)),
        NodeType::Lvar => SpecNodeType::Lvar,
        NodeType::BinOp(t, l, r) => SpecNodeType::BinOp(
            t@,
            Box::new(node_view(*l)),
            Box::new(node_view(*r)),
        ),
        NodeType::If(c, t, e) => SpecNodeType::If(
            Box::new(node_view(*c)),
            Box::new(node_view(*t)),
            opt_view(e),
        ),
        NodeType::For(i, c, n, b) => SpecNodeType::For(
            Box::new(node_view(*i)),
            Box::new(node_view(*c)),
            Box::new(node_view(*n)),
            Box::new(node_view(*b)),
        ),
        NodeType::Addr(e) => SpecNodeType::Addr(Box::new(node_view(*e))),
        NodeType::Deref(e) => SpecNodeType::Deref(Box::new(node_view(*e))),
        NodeType::Logand(l, r) => SpecNodeType::Logand(
            Box::new(node_view(*l)),
            Box::new(node_view(*r)),
        ),
        NodeType::Logor(l, r) => SpecNodeType::Logor(
            Box::new(node_view(*l)),
            Box::new(node_view(*r)),
        ),
        NodeType::Return(e) => SpecNodeType::Return(Box::new(node_view(*e))),
        NodeType::Sizeof(e) => SpecNodeType::Sizeof(Box::new(node_view(*e))),
        NodeType::Call(s, args) => SpecNodeType::Call(s@, nodes_view(args@)),
        NodeType::Func(s, args, body) => SpecNodeType::Func(
            s@,
            nodes_view(args@),
            Box::new(node_view(*body)),
        ),
        NodeType::ExprStmt(e) => SpecNodeType::ExprStmt(Box::new(node_view(*e))),
        NodeType::CompStmt(ss) => SpecNodeType::CompStmt(nodes_view(ss@)),
    }
}

/// Models of a sequence of nodes.
pub open spec fn nodes_view(s: Seq<Node>) -> Seq<SpecNode>
    decreases s,
{
    if s.len() == 0 {
        Seq::empty()
    } else {
        nodes_view(s.drop_last()).push(node_view(s.last()))
    }
}

impl View for NodeType {
    type V = SpecNodeType;

    open spec fn view(&self) -> SpecNodeType {
        op_view(*self)
    }
}

impl View for Node {
    type V = SpecNode;

    open spec fn view(&self) -> SpecNode {
        node_view(*self)
    }
}

/// The token kinds of a token sequence.
#[verifier::opaque]
pub open spec fn kinds(tokens: Seq<Token>) -> Seq<SpecTokenType> {
    tokens.map_values(|t: Token| t.ty@)
}

// Executable parser.

/// `r` is the parse `expected`: the same node, ending at `end`, which lies
/// after `start` and within the `len` tokens; or `None` where `expected` is.
pub open spec fn parsed<T: View>(
    expected: Option<(T::V, int)>,
    r: Option<T>,
    start: usize,
    end: usize,
    len: int,
) -> bool {
    match expected {
        Some((v, p)) => r matches Some(x) && x@ == v && end == p && start < end <= len,
        None => r is None,
    }
}

/// Whether two token kinds are equal.
fn same_type(a: &TokenType, b: &TokenType) -> (r: bool)
    ensures
        r == (a@ == b@),
{
    match (a, b) {
        (TokenType::Num(x), TokenType::Num(y)) => *x == *y,
        (TokenType::Str(x, m), TokenType::Str(y, n)) => *x == *y && *m == *n,
        (TokenType::Ident(x), TokenType::Ident(y)) => *x == *y,
        (TokenType::Int, TokenType::Int) => true,
        (TokenType::Char, TokenType::Char) => true,
        (TokenType::Plus, TokenType::Plus) => true,
        (TokenType::Minus, TokenType::Minus) => true,
        (TokenType::Mul, TokenType::Mul) => true,
        (TokenType::And, TokenType::And) => true,
        (TokenType::Div, TokenType::Div) => true,
        (TokenType::If, TokenType::If) => true,
        (TokenType::Else, TokenType::Else) => true,
        (TokenType::For, TokenType::For) => true,
        (TokenType::EQ, TokenType::EQ) => true,
        (TokenType::NE, TokenType::NE) => true,
        (TokenType::Semicolon, TokenType::Semicolon) => true,
        (TokenType::LeftParen, TokenType::LeftParen) => true,
        (TokenType::RightParen, TokenType::RightParen) => true,
        (TokenType::LeftBracket, TokenType::LeftBracket) => true,
        (TokenType::RightBracket, TokenType::RightBracket) => true,
        (TokenType::LeftBrace, TokenType::LeftBrace) => true,
        (TokenType::RightBrace, TokenType::RightBrace) => true,
        (TokenType::LeftAngleBracket, TokenType::LeftAngleBracket) => true,
        (TokenType::RightAngleBracket, TokenType::RightAngleBracket) => true,
        (TokenType::Equal, TokenType::Equal) => true,
        (TokenType::Logor, TokenType::Logor) => true,
        (TokenType::Logand, TokenType::Logand) => true,
        (TokenType::Return, TokenType::Return) => true,
        (TokenType::Sizeof, TokenType::Sizeof) => true,
        (TokenType::Colon, TokenType::Colon) => true,
        _ => false,
    }
}

/// `expect`: where the token at `pos` is `ty`, steps over it and gives `true`;
/// `false` where it is not, or where `pos` is past the tokens.
fn expect(ty: TokenType, tokens: &Vec<Token>, pos: &mut usize) -> (ok: bool)
    ensures
        ok == (spec_expect(kinds(tokens@), *old(pos) as int, ty@) is Some),
        ok ==> *final(pos) == *old(pos) + 1,
{
    proof {
        lemma_kinds_len(tokens@);
    }
    if *pos >= tokens.len() {
        return false;
    }
    proof {
        lemma_kind_at(tokens@, *pos as int);
    }
    if !same_type(&tokens[*pos].ty, &ty) {
        return false;
    }
    *pos = *pos + 1;
    true
}

/// `consume`: whether the token at `pos` is `ty`, stepping over it where it is;
/// `None` where `pos` is past the tokens.
fn consume(ty: TokenType, tokens: &Vec<Token>, pos: &mut usize) -> (r: Option<bool>)
    ensures
        r is Some <==> *old(pos) < tokens@.len(),
        r == Some(true) ==> kinds(tokens@)[*old(pos) as int] == ty@ && *final(pos) == *old(pos)
            + 1,
        r == Some(false) ==> kinds(tokens@)[*old(pos) as int] != ty@ && *final(pos) == *old(pos),
{
    proof {
        lemma_kinds_len(tokens@);
    }
    if *pos >= tokens.len() {
        return None;
    }
    proof {
        lemma_kind_at(tokens@, *pos as int);
    }
    if !same_type(&tokens[*pos].ty, &ty) {
        return Some(false);
    }
    *pos = *pos + 1;
    Some(true)
}

/// Whether `t` starts a type name.
fn is_typename(t: &Token) -> (r: bool)
    ensures
        r == (t.ty@ == SpecTokenType::Int),
{
    match t.ty {
        TokenType::Int => true,
        _ => false,
    }
}

impl Node {
    /// A node of kind `op`, of type `int`, with no frame data.
    pub fn new(op: NodeType) -> (n: Self)
        ensures
            n@ == new_node(op@),
    {
        Self { op: op, ty: Box::new(Type::default()), stacksize: 0, offset: 0 }
    }
}

/// Appends `n` to `v`.
fn push_node(v: &mut Vec<Node>, n: Node)
    ensures
        nodes_view(final(v)@) == nodes_view(old(v)@).push(n@),
{
    let ghost before = v@;
    v.push(n);
    assert(v@.drop_last() =~= before);
}

/// Parses a primary expression at `pos` (`spec_primary`).
fn primary(tokens: &Vec<Token>, pos: &mut usize) -> (r: Option<Node>)
    ensures
        parsed(
            spec_primary(kinds(tokens@), *old(pos) as int),
            r,
            *old(pos),
            *final(pos),
            tokens@.len() as int,
        ),
    decreases tokens@.len() - *old(pos), 1int,
{
    proof {
        lemma_punct_views();
        lemma_kinds_len(tokens@);
        lemma_unfold_primary(kinds(tokens@), *pos as int);
    }
    let ghost toks = kinds(tokens@);
    let start = *pos;
    if start >= tokens.len() {
        return None;
    }
    *pos = start + 1;
    proof {
        lemma_kind_at(tokens@, start as int);
    }
    match &tokens[start].ty {
        TokenType::Num(val) => {
            let mut node = Node::new(NodeType::Num(*val));
            node.ty = Box::new(Type::new(Ctype::Int));
            Some(node)
        },
        TokenType::Ident(name) => {
            match consume(TokenType::LeftParen, tokens, pos) {
                None => {
                    return None;
                },
                Some(false) => {
                    return Some(Node::new(NodeType::Ident(name.clone())));
                },
                Some(true) => {},
            }
            let mut args: Vec<Node> = Vec::new();
            match consume(TokenType::RightParen, tokens, pos) {
                None => {
                    return None;
                },
                Some(true) => {
                    return Some(Node::new(NodeType::Call(name.clone(), args)));
                },
                Some(false) => {},
            }
            let first = match assign(tokens, pos) {
                Some(n) => n,
                None => {
                    return None;
                },
            };
            push_node(&mut args, first);
            let ghost q = *pos as int;
            assert(nodes_view(args@) =~= seq![first@]);
            loop
                invariant_except_break
                    start == *old(pos),
                    start + 2 < *pos <= tokens@.len(),
                    toks == kinds(tokens@),
                    toks.len() == tokens@.len(),
                    spec_call_args(toks, q, seq![first@]) is None ==> spec_primary(
                        toks,
                        start as int,
                    ) is None,
                    spec_call_args(toks, *pos as int, nodes_view(args@)) == spec_call_args(
                        toks,
                        q,
                        seq![first@],
                    ),
                ensures
                    start + 2 < *pos < tokens@.len(),
                    spec_call_args(toks, q, seq![first@]) == Some(
                        (nodes_view(args@), *pos as int),
                    ),
                decreases tokens@.len() - *pos,
            {
                proof {
                    lemma_punct_views();
                    lemma_unfold_call_args(toks, *pos as int, nodes_view(args@));
                }
                match consume(TokenType::Colon, tokens, pos) {
                    None => {
                        return None;
                    },
                    Some(false) => {
                        break ;
                    },
                    Some(true) => {},
                }
                let arg = match assign(tokens, pos) {
                    Some(n) => n,
                    None => {
                        return None;
                    },
                };
                push_node(&mut args, arg);
            }
            if !expect(TokenType::RightParen, tokens, pos) {
                return None;
            }
            Some(Node::new(NodeType::Call(name.clone(), args)))
        },
        TokenType::LeftParen => {
            let node = match assign(tokens, pos) {
                Some(n) => n,
                None => {
                    return None;
                },
            };
            if !expect(TokenType::RightParen, tokens, pos) {
                return None;
            }
            Some(node)
        },
        _ => None,
    }
}

/// Parses a primary expression with its indexes (`spec_postfix`).
fn postfix(tokens: &Vec<Token>, pos: &mut usize) -> (r: Option<Node>)
    ensures
        parsed(
            spec_postfix(kinds(tokens@), *old(pos) as int),
            r,
            *old(pos),
            *final(pos),
            tokens@.len() as int,
        ),
    decreases tokens@.len() - *old(pos), 2int,
{
    proof {
        lemma_punct_views();
        lemma_kinds_len(tokens@);
        lemma_unfold_postfix(kinds(tokens@), *pos as int);
    }
    let ghost toks = kinds(tokens@);
    let start = *pos;
    if start >= tokens.len() {
        return None;
    }
    let mut lhs = match primary(tokens, pos) {
        Some(n) => n,
        None => {
            return None;
        },
    };
    loop
        invariant_except_break
            start == *old(pos),
            start < *pos <= tokens@.len(),
            toks == kinds(tokens@),
            toks.len() == tokens@.len(),
            spec_postfix(toks, start as int) == spec_postfix_rest(toks, *pos as int, lhs@),
        ensures
            start < *pos <= tokens@.len(),
            spec_postfix(toks, start as int) == Some((lhs@, *pos as int)),
        decreases tokens@.len() - *pos,
    {
        proof {
            lemma_punct_views();
            lemma_unfold_postfix_rest(toks, *pos as int, lhs@);
        }
        match consume(TokenType::LeftBracket, tokens, pos) {
            None => {
                return None;
            },
            Some(false) => {
                break ;
            },
            Some(true) => {},
        }
        let index = match primary(tokens, pos) {
        Some(n) => n,
        None => {
            return None;
        },
    };
        let sum = Node::new(NodeType::BinOp(TokenType::Plus, Box::new(lhs), Box::new(index)));
        lhs = Node::new(NodeType::Deref(Box::new(sum)));
        if !expect(TokenType::RightBracket, tokens, pos) {
            return None;
        }
    }
    Some(lhs)
}

/// Parses a unary expression (`spec_unary`).
fn unary(tokens: &Vec<Token>, pos: &mut usize) -> (r: Option<Node>)
    ensures
        parsed(
            spec_unary(kinds(tokens@), *old(pos) as int),
            r,
            *old(pos),
            *final(pos),
            tokens@.len() as int,
        ),
    decreases tokens@.len() - *old(pos), 3int,
{
    proof {
        lemma_punct_views();
        lemma_kinds_len(tokens@);
        lemma_unfold_unary(kinds(tokens@), *pos as int);
    }
    let start = *pos;
    match consume(TokenType::Mul, tokens, pos) {
        None => {
            return None;
        },
        Some(true) => {
            let e = match self::mul(tokens, pos) {
        Some(n) => n,
        None => {
            return None;
        },
    };
            return Some(Node::new(NodeType::Deref(Box::new(e))));
        },
        Some(false) => {},
    }
    match consume(TokenType::And, tokens, pos) {
        None => {
            return None;
        },
        Some(true) => {
            let e = match self::mul(tokens, pos) {
        Some(n) => n,
        None => {
            return None;
        },
    };
            return Some(Node::new(NodeType::Addr(Box::new(e))));
        },
        Some(false) => {},
    }
    match consume(TokenType::Sizeof, tokens, pos) {
        None => {
            return None;
        },
        Some(true) => {
            let e = match unary(tokens, pos) {
        Some(n) => n,
        None => {
            return None;
        },
    };
            return Some(Node::new(NodeType::Sizeof(Box::new(e))));
        },
        Some(false) => {},
    }
    postfix(tokens, pos)
}

/// Parses a product (`spec_mul`).
fn mul(tokens: &Vec<Token>, pos: &mut usize) -> (r: Option<Node>)
    ensures
        parsed(
            spec_mul(kinds(tokens@), *old(pos) as int),
            r,
            *old(pos),
            *final(pos),
            tokens@.len() as int,
        ),
    decreases tokens@.len() - *old(pos), 4int,
{
    proof {
        lemma_punct_views();
        lemma_kinds_len(tokens@);
        lemma_unfold_mul(kinds(tokens@), *pos as int);
    }
    let ghost toks = kinds(tokens@);
    let start = *pos;
    if start >= tokens.len() {
        return None;
    }
    let mut lhs = match unary(tokens, pos) {
        Some(n) => n,
        None => {
            return None;
        },
    };
    loop
        invariant
            start == *old(pos),
            start < *pos <= tokens@.len(),
            toks == kinds(tokens@),
            toks.len() == tokens@.len(),
            spec_mul(toks, start as int) == spec_mul_rest(toks, *pos as int, lhs@),
        decreases tokens@.len() - *pos,
    {
        proof {
            lemma_punct_views();
            lemma_unfold_mul_rest(toks, *pos as int, lhs@);
        }
            if *pos == tokens.len() {
                return Some(lhs);
            }
        if *pos >= tokens.len() {
            return None;
        }
        proof {
            lemma_kind_at(tokens@, *pos as int);
        }
        let op = match &tokens[*pos].ty {
                TokenType::Mul => TokenType::Mul,
                TokenType::Div => TokenType::Div,
            _ => {
                return Some(lhs);
            },
        };
        *pos = *pos + 1;
        let rhs = match unary(tokens, pos) {
        Some(n) => n,
        None => {
            return None;
        },
    };
        lhs = Node::new(NodeType::BinOp(op, Box::new(lhs), Box::new(rhs)));
    }
}

/// Parses a sum (`spec_add`).
fn add(tokens: &Vec<Token>, pos: &mut usize) -> (r: Option<Node>)
    ensures
        parsed(
            spec_add(kinds(tokens@), *old(pos) as int),
            r,
            *old(pos),
            *final(pos),
            tokens@.len() as int,
        ),
    decreases tokens@.len() - *old(pos), 5int,
{
    proof {
        lemma_punct_views();
        lemma_kinds_len(tokens@);
        lemma_unfold_add(kinds(tokens@), *pos as int);
    }
    let ghost toks = kinds(tokens@);
    let start = *pos;
    if start >= tokens.len() {
        return None;
    }
    let mut lhs = match self::mul(tokens, pos) {
        Some(n) => n,
        None => {
            return None;
        },
    };
    loop
        invariant
            start == *old(pos),
            start < *pos <= tokens@.len(),
            toks == kinds(tokens@),
            toks.len() == tokens@.len(),
            spec_add(toks, start as int) == spec_add_rest(toks, *pos as int, lhs@),
        decreases tokens@.len() - *pos,
    {
        proof {
            lemma_punct_views();
            lemma_unfold_add_rest(toks, *pos as int, lhs@);
        }
            if *pos == tokens.len() {
                return Some(lhs);
            }
        if *pos >= tokens.len() {
            return None;
        }
        proof {
            lemma_kind_at(tokens@, *pos as int);
        }
        let op = match &tokens[*pos].ty {
                TokenType::Plus => TokenType::Plus,
                TokenType::Minus => TokenType::Minus,
            _ => {
                return Some(lhs);
            },
        };
        *pos = *pos + 1;
        let rhs = match self::mul(tokens, pos) {
        Some(n) => n,
        None => {
            return None;
        },
    };
        lhs = Node::new(NodeType::BinOp(op, Box::new(lhs), Box::new(rhs)));
    }
}

/// Parses a comparison (`spec_rel`).
fn rel(tokens: &Vec<Token>, pos: &mut usize) -> (r: Option<Node>)
    ensures
        parsed(
            spec_rel(kinds(tokens@), *old(pos) as int),
            r,
            *old(pos),
            *final(pos),
            tokens@.len() as int,
        ),
    decreases tokens@.len() - *old(pos), 6int,
{
    proof {
        lemma_punct_views();
        lemma_kinds_len(tokens@);
        lemma_unfold_rel(kinds(tokens@), *pos as int);
    }
    let ghost toks = kinds(tokens@);
    let start = *pos;
    if start >= tokens.len() {
        return None;
    }
    let mut lhs = match self::add(tokens, pos) {
        Some(n) => n,
        None => {
            return None;
        },
    };
    loop
        invariant
            start == *old(pos),
            start < *pos <= tokens@.len(),
            toks == kinds(tokens@),
            toks.len() == tokens@.len(),
            spec_rel(toks, start as int) == spec_rel_rest(toks, *pos as int, lhs@),
        decreases tokens@.len() - *pos,
    {
        proof {
            lemma_punct_views();
            lemma_unfold_rel_rest(toks, *pos as int, lhs@);
        }
        if *pos >= tokens.len() {
            return None;
        }
        proof {
            lemma_kind_at(tokens@, *pos as int);
        }
        match &tokens[*pos].ty {
            TokenType::LeftAngleBracket => {
                *pos = *pos + 1;
                let rhs = match self::add(tokens, pos) {
        Some(n) => n,
        None => {
            return None;
        },
    };
                lhs = Node::new(
                    NodeType::BinOp(TokenType::LeftAngleBracket, Box::new(lhs), Box::new(rhs)),
                );
            },
            TokenType::RightAngleBracket => {
                *pos = *pos + 1;
                let rhs = match self::add(tokens, pos) {
        Some(n) => n,
        None => {
            return None;
        },
    };
                lhs = Node::new(
                    NodeType::BinOp(TokenType::LeftAngleBracket, Box::new(rhs), Box::new(lhs)),
                );
            },
            _ => {
                return Some(lhs);
            },
        }
    }
}

/// Parses a `&&` chain (`spec_logand`).
fn logand(tokens: &Vec<Token>, pos: &mut usize) -> (r: Option<Node>)
    ensures
        parsed(
            spec_logand(kinds(tokens@), *old(pos) as int),
            r,
            *old(pos),
            *final(pos),
            tokens@.len() as int,
        ),
    decreases tokens@.len() - *old(pos), 7int,
{
    proof {
        lemma_punct_views();
        lemma_kinds_len(tokens@);
        lemma_unfold_logand(kinds(tokens@), *pos as int);
    }
    let ghost toks = kinds(tokens@);
    let start = *pos;
    if start >= tokens.len() {
        return None;
    }
    let mut lhs = match rel(tokens, pos) {
        Some(n) => n,
        None => {
            return None;
        },
    };
    loop
        invariant
            start == *old(pos),
            start < *pos <= tokens@.len(),
            toks == kinds(tokens@),
            toks.len() == tokens@.len(),
            spec_logand(toks, start as int) == spec_logand_rest(toks, *pos as int, lhs@),
        decreases tokens@.len() - *pos,
    {
        proof {
            lemma_punct_views();
            lemma_unfold_logand_rest(toks, *pos as int, lhs@);
        }
        match consume(TokenType::Logand, tokens, pos) {
            None => {
                return None;
            },
            Some(false) => {
                return Some(lhs);
            },
            Some(true) => {},
        }
        let rhs = match rel(tokens, pos) {
        Some(n) => n,
        None => {
            return None;
        },
    };
        lhs = Node::new(NodeType::Logand(Box::new(lhs), Box::new(rhs)));
    }
}

/// Parses a `||` chain (`spec_logor`).
fn logor(tokens: &Vec<Token>, pos: &mut usize) -> (r: Option<Node>)
    ensures
        parsed(
            spec_logor(kinds(tokens@), *old(pos) as int),
            r,
            *old(pos),
            *final(pos),
            tokens@.len() as int,
        ),
    decreases tokens@.len() - *old(pos), 8int,
{
    proof {
        lemma_punct_views();
        lemma_kinds_len(tokens@);
        lemma_unfold_logor(kinds(tokens@), *pos as int);
    }
    let ghost toks = kinds(tokens@);
    let start = *pos;
    if start >= tokens.len() {
        return None;
    }
    let mut lhs = match logand(tokens, pos) {
        Some(n) => n,
        None => {
            return None;
        },
    };
    loop
        invariant
            start == *old(pos),
            start < *pos <= tokens@.len(),
            toks == kinds(tokens@),
            toks.len() == tokens@.len(),
            spec_logor(toks, start as int) == spec_logor_rest(toks, *pos as int, lhs@),
        decreases tokens@.len() - *pos,
    {
        proof {
            lemma_punct_views();
            lemma_unfold_logor_rest(toks, *pos as int, lhs@);
        }
        match consume(TokenType::Logor, tokens, pos) {
            None => {
                return None;
            },
            Some(false) => {
                return Some(lhs);
            },
            Some(true) => {},
        }
        let rhs = match logand(tokens, pos) {
        Some(n) => n,
        None => {
            return None;
        },
    };
        lhs = Node::new(NodeType::Logor(Box::new(lhs), Box::new(rhs)));
    }
}

/// Parses an assignment or a plain expression (`spec_assign`).
fn assign(tokens: &Vec<Token>, pos: &mut usize) -> (r: Option<Node>)
    ensures
        parsed(
            spec_assign(kinds(tokens@), *old(pos) as int),
            r,
            *old(pos),
            *final(pos),
            tokens@.len() as int,
        ),
    decreases tokens@.len() - *old(pos), 9int,
{
    proof {
        lemma_kinds_len(tokens@);
        lemma_unfold_assign(kinds(tokens@), *pos as int);
    }
    let ghost toks = kinds(tokens@);
    let start = *pos;
    if start >= tokens.len() {
        return None;
    }
    let lhs = match logor(tokens, pos) {
        Some(n) => n,
        None => {
            return None;
        },
    };
    assert(TokenType::Equal@ == SpecTokenType::Equal);
    match consume(TokenType::Equal, tokens, pos) {
        None => None,
        Some(true) => {
            let rhs = match logor(tokens, pos) {
                Some(n) => n,
                None => {
                    return None;
                },
            };
            Some(Node::new(NodeType::BinOp(TokenType::Equal, Box::new(lhs), Box::new(rhs))))
        },
        Some(false) => Some(lhs),
    }
}

/// Parses a type name: `int` and its pointer stars (`spec_ctype`).
fn ctype(tokens: &Vec<Token>, pos: &mut usize) -> (r: Option<Type>)
    ensures
        parsed(
            spec_ctype(kinds(tokens@), *old(pos) as int),
            r,
            *old(pos),
            *final(pos),
            tokens@.len() as int,
        ),
{
    proof {
        lemma_punct_views();
        lemma_kinds_len(tokens@);
    }
    let ghost toks = kinds(tokens@);
    let start = *pos;
    if start >= tokens.len() {
        return None;
    }
    proof {
        lemma_kind_at(tokens@, start as int);
    }
    match tokens[start].ty {
        TokenType::Int => {},
        _ => {
            return None;
        },
    }
    *pos = start + 1;
    let mut ty = Ctype::Int;
    loop
        invariant_except_break
            start == *old(pos),
            start < *pos <= tokens@.len(),
            toks == kinds(tokens@),
            toks.len() == tokens@.len(),
            spec_pointers(toks, *pos as int, ty) == spec_ctype(toks, start as int),
        ensures
            start < *pos <= tokens@.len(),
            spec_ctype(toks, start as int) == Some((Type { ty }, *pos as int)),
        decreases tokens@.len() - *pos,
    {
        proof {
            lemma_punct_views();
        }
        match consume(TokenType::Mul, tokens, pos) {
            None => {
                return None;
            },
            Some(false) => {
                break ;
            },
            Some(true) => {
                ty = Ctype::Ptr(Box::new(Type::new(ty)));
            },
        }
    }
    Some(Type::new(ty))
}

/// `ty` wrapped in arrays of the lengths `dims`, the first length innermost.
fn wrap_arrays(ty: Box<Type>, dims: &Vec<usize>) -> (r: Box<Type>)
    ensures
        *r == array_of(*ty, dims@),
{
    let mut ty = ty;
    let ghost base = *ty;
    let mut i: usize = 0;
    while i < dims.len()
        invariant
            i <= dims@.len(),
            *ty == array_of(base, dims@.take(i as int)),
        decreases dims@.len() - i,
    {
        assert(dims@.take(i as int + 1).drop_last() =~= dims@.take(i as int));
        ty = Box::new(Type::new(Ctype::Ary(ty, dims[i])));
        i = i + 1;
    }
    assert(dims@.take(i as int) =~= dims@);
    ty
}

/// read_array: the dimensions after a declared name, applied to `ty`; `None`
/// where a dimension is not a number or the tokens end.
fn read_array(ty: Box<Type>, tokens: &Vec<Token>, pos: &mut usize) -> (r: Option<Box<Type>>)
    ensures
        match spec_read_array(*ty, kinds(tokens@), *old(pos) as int) {
            Some((t, p)) => r matches Some(b) && *b == t && *final(pos) == p,
            None => r is None,
        },
{
    proof {
        lemma_kinds_len(tokens@);
    }
    let ghost toks = kinds(tokens@);
    let start = *pos;
    if start >= tokens.len() {
        return None;
    }
    let mut dims: Vec<usize> = Vec::new();
    loop
        invariant_except_break
            start == *old(pos),
            start <= *pos <= tokens@.len(),
            toks == kinds(tokens@),
            toks.len() == tokens@.len(),
            spec_dims(toks, *pos as int, dims@) == spec_dims(toks, start as int, Seq::empty()),
        ensures
            spec_dims(toks, start as int, Seq::empty()) == Some((dims@, *pos as int)),
        decreases tokens@.len() - *pos,
    {
        proof {
            lemma_punct_views();
        }
        match consume(TokenType::LeftBracket, tokens, pos) {
            None => {
                return None;
            },
            Some(false) => {
                break ;
            },
            Some(true) => {},
        }
        let len = match primary(tokens, pos) {
            Some(n) => n,
            None => {
                return None;
            },
        };
        match len.op {
            NodeType::Num(n) => {
                dims.push(#[verifier::truncate] (n as usize));
                if !expect(TokenType::RightBracket, tokens, pos) {
                    return None;
                }
            },
            _ => {
                return None;
            },
        }
    }
    Some(wrap_arrays(ty, &dims))
}

/// Parses a variable definition (`spec_decl`).
fn decl(tokens: &Vec<Token>, pos: &mut usize) -> (r: Option<Node>)
    ensures
        parsed(
            spec_decl(kinds(tokens@), *old(pos) as int),
            r,
            *old(pos),
            *final(pos),
            tokens@.len() as int,
        ),
{
    proof {
        lemma_punct_views();
        lemma_kinds_len(tokens@);
    }
    let ghost toks = kinds(tokens@);
    let start = *pos;
    let ty = match ctype(tokens, pos) {
        Some(t) => t,
        None => {
            return None;
        },
    };
    let p = *pos;
    if p >= tokens.len() {
        return None;
    }
    proof {
        lemma_kind_at(tokens@, p as int);
    }
    let name = match &tokens[p].ty {
        TokenType::Ident(name) => name.clone(),
        _ => {
            return None;
        },
    };
    *pos = p + 1;
    let ty = match read_array(Box::new(ty), tokens, pos) {
        Some(t) => t,
        None => {
            return None;
        },
    };
    proof {
        lemma_dims_progress(toks, p + 1, Seq::empty());
    }
    let init = match consume(TokenType::Equal, tokens, pos) {
        None => {
            return None;
        },
        Some(true) => match assign(tokens, pos) {
            Some(n) => Some(Box::new(n)),
            None => {
                return None;
            },
        },
        Some(false) => None,
    };
    if !expect(TokenType::Semicolon, tokens, pos) {
        return None;
    }
    let mut node = Node::new(NodeType::Vardef(name, init));
    node.ty = ty;
    Some(node)
}

/// Parses a function parameter (`spec_param`).
fn param(tokens: &Vec<Token>, pos: &mut usize) -> (r: Option<Node>)
    ensures
        parsed(
            spec_param(kinds(tokens@), *old(pos) as int),
            r,
            *old(pos),
            *final(pos),
            tokens@.len() as int,
        ),
{
    proof {
        lemma_kinds_len(tokens@);
    }
    let ty = match ctype(tokens, pos) {
        Some(t) => t,
        None => {
            return None;
        },
    };
    let p = *pos;
    if p >= tokens.len() {
        return None;
    }
    proof {
        lemma_kind_at(tokens@, p as int);
    }
    let name = match &tokens[p].ty {
        TokenType::Ident(name) => name.clone(),
        _ => {
            return None;
        },
    };
    *pos = p + 1;
    let mut node = Node::new(NodeType::Vardef(name, None));
    node.ty = Box::new(ty);
    Some(node)
}

/// Parses an expression statement (`spec_expr_stmt`).
fn expr_stmt(tokens: &Vec<Token>, pos: &mut usize) -> (r: Option<Node>)
    ensures
        parsed(
            spec_expr_stmt(kinds(tokens@), *old(pos) as int),
            r,
            *old(pos),
            *final(pos),
            tokens@.len() as int,
        ),
{
    proof {
        lemma_punct_views();
        lemma_kinds_len(tokens@);
    }
    let expr = match assign(tokens, pos) {
        Some(n) => n,
        None => {
            return None;
        },
    };
    if !expect(TokenType::Semicolon, tokens, pos) {
        return None;
    }
    Some(Node::new(NodeType::ExprStmt(Box::new(expr))))
}

/// Parses a statement (`spec_stmt`).
fn stmt(tokens: &Vec<Token>, pos: &mut usize) -> (r: Option<Node>)
    ensures
        parsed(
            spec_stmt(kinds(tokens@), *old(pos) as int),
            r,
            *old(pos),
            *final(pos),
            tokens@.len() as int,
        ),
    decreases tokens@.len() - *old(pos), 0int,
{
    proof {
        lemma_punct_views();
        lemma_kinds_len(tokens@);
        lemma_unfold_stmt(kinds(tokens@), *pos as int);
    }
    let start = *pos;
    if start >= tokens.len() {
        return None;
    }
    proof {
        lemma_kind_at(tokens@, start as int);
    }
    match &tokens[start].ty {
        TokenType::Int => decl(tokens, pos),
        TokenType::If => {
            *pos = start + 1;
            if !expect(TokenType::LeftParen, tokens, pos) {
                return None;
            }
            let cond = match assign(tokens, pos) {
                Some(n) => n,
                None => {
                    return None;
                },
            };
            if !expect(TokenType::RightParen, tokens, pos) {
                return None;
            }
            let then = match stmt(tokens, pos) {
                Some(n) => n,
                None => {
                    return None;
                },
            };
            match consume(TokenType::Else, tokens, pos) {
                None => None,
                Some(true) => {
                    let els = match stmt(tokens, pos) {
                        Some(n) => n,
                        None => {
                            return None;
                        },
                    };
                    Some(
                        Node::new(
                            NodeType::If(Box::new(cond), Box::new(then), Some(Box::new(els))),
                        ),
                    )
                },
                Some(false) => Some(Node::new(NodeType::If(Box::new(cond), Box::new(then), None))),
            }
        },
        TokenType::For => {
            *pos = start + 1;
            if !expect(TokenType::LeftParen, tokens, pos) {
                return None;
            }
            if *pos >= tokens.len() {
                return None;
            }
            proof {
                lemma_kind_at(tokens@, *pos as int);
            }
            let init = if is_typename(&tokens[*pos]) {
                decl(tokens, pos)
            } else {
                expr_stmt(tokens, pos)
            };
            let init = match init {
                Some(n) => n,
                None => {
                    return None;
                },
            };
            let cond = match assign(tokens, pos) {
                Some(n) => n,
                None => {
                    return None;
                },
            };
            if !expect(TokenType::Semicolon, tokens, pos) {
                return None;
            }
            let inc = match assign(tokens, pos) {
                Some(n) => n,
                None => {
                    return None;
                },
            };
            if !expect(TokenType::RightParen, tokens, pos) {
                return None;
            }
            let body = match stmt(tokens, pos) {
                Some(n) => n,
                None => {
                    return None;
                },
            };
            Some(
                Node::new(
                    NodeType::For(Box::new(init), Box::new(cond), Box::new(inc), Box::new(body)),
                ),
            )
        },
        TokenType::Return => {
            *pos = start + 1;
            let expr = match assign(tokens, pos) {
                Some(n) => n,
                None => {
                    return None;
                },
            };
            if !expect(TokenType::Semicolon, tokens, pos) {
                return None;
            }
            Some(Node::new(NodeType::Return(Box::new(expr))))
        },
        TokenType::LeftBrace => {
            *pos = start + 1;
            compound_stmt(tokens, pos)
        },
        _ => {
            let expr = match assign(tokens, pos) {
                Some(n) => n,
                None => {
                    return None;
                },
            };
            let node = Node::new(NodeType::ExprStmt(Box::new(expr)));
            if !expect(TokenType::Semicolon, tokens, pos) {
                return None;
            }
            Some(node)
        },
    }
}

/// Parses the statements of a block, after its `{` (`spec_compound_stmt`).
fn compound_stmt(tokens: &Vec<Token>, pos: &mut usize) -> (r: Option<Node>)
    ensures
        parsed(
            spec_compound_stmt(kinds(tokens@), *old(pos) as int),
            r,
            *old(pos),
            *final(pos),
            tokens@.len() as int,
        ),
    decreases tokens@.len() - *old(pos), 2int,
{
    proof {
        lemma_kinds_len(tokens@);
        lemma_unfold_compound_stmt(kinds(tokens@), *pos as int);
    }
    let ghost toks = kinds(tokens@);
    let start = *pos;
    let mut stmts: Vec<Node> = Vec::new();
    loop
        invariant_except_break
            start == *old(pos),
            start <= *pos,
            toks == kinds(tokens@),
            toks.len() == tokens@.len(),
            spec_stmts(toks, *pos as int, nodes_view(stmts@)) == spec_stmts(
                toks,
                start as int,
                Seq::empty(),
            ),
        ensures
            start < *pos <= tokens@.len(),
            spec_stmts(toks, start as int, Seq::empty()) == Some(
                (nodes_view(stmts@), *pos as int),
            ),
        decreases tokens@.len() - *pos,
    {
        proof {
            lemma_punct_views();
            lemma_unfold_stmts(toks, *pos as int, nodes_view(stmts@));
            lemma_unfold_compound_stmt(toks, start as int);
        }
        match consume(TokenType::RightBrace, tokens, pos) {
            None => {
                return None;
            },
            Some(true) => {
                break ;
            },
            Some(false) => {},
        }
        let st = match stmt(tokens, pos) {
            Some(n) => n,
            None => {
                return None;
            },
        };
        push_node(&mut stmts, st);
    }
    Some(Node::new(NodeType::CompStmt(stmts)))
}

/// Parses a function definition (`spec_function`).
fn function(tokens: &Vec<Token>, pos: &mut usize) -> (r: Option<Node>)
    ensures
        parsed(
            spec_function(kinds(tokens@), *old(pos) as int),
            r,
            *old(pos),
            *final(pos),
            tokens@.len() as int,
        ),
{
    proof {
        lemma_punct_views();
        lemma_kinds_len(tokens@);
    }
    let ghost toks = kinds(tokens@);
    let start = *pos;
    if start >= tokens.len() {
        return None;
    }
    proof {
        lemma_kind_at(tokens@, start as int);
    }
    match tokens[start].ty {
        TokenType::Int => {},
        _ => {
            return None;
        },
    }
    if start + 1 >= tokens.len() {
        return None;
    }
    proof {
        lemma_kind_at(tokens@, start + 1);
    }
    let name = match &tokens[start + 1].ty {
        TokenType::Ident(name) => name.clone(),
        _ => {
            return None;
        },
    };
    *pos = start + 2;
    if !expect(TokenType::LeftParen, tokens, pos) {
        return None;
    }
    let p = *pos;
    let mut args: Vec<Node> = Vec::new();
    match consume(TokenType::RightParen, tokens, pos) {
        None => {
            return None;
        },
        Some(true) => {},
        Some(false) => {
            let first = match param(tokens, pos) {
                Some(n) => n,
                None => {
                    return None;
                },
            };
            push_node(&mut args, first);
            let q = *pos;
            assert(nodes_view(args@) =~= seq![first@]);
            loop
                invariant_except_break
                    start == *old(pos),
                    spec_params(toks, q as int, seq![first@]) is None ==> spec_function(
                        toks,
                        start as int,
                    ) is None,
                    p < q <= *pos <= tokens@.len(),
                    toks == kinds(tokens@),
                    toks.len() == tokens@.len(),
                    spec_param(toks, p as int) == Some((first@, q as int)),
                    spec_params(toks, *pos as int, nodes_view(args@)) == spec_params(
                        toks,
                        q as int,
                        seq![first@],
                    ),
                ensures
                    p < q <= *pos <= tokens@.len(),
                    spec_param(toks, p as int) == Some((first@, q as int)),
                    spec_params(toks, q as int, seq![first@]) == Some(
                        (nodes_view(args@), *pos as int),
                    ),
                decreases tokens@.len() - *pos,
            {
                proof {
                    lemma_punct_views();
                }
                match consume(TokenType::Colon, tokens, pos) {
                    None => {
                        return None;
                    },
                    Some(false) => {
                        break ;
                    },
                    Some(true) => {},
                }
                let prm = match param(tokens, pos) {
                    Some(n) => n,
                    None => {
                        return None;
                    },
                };
                push_node(&mut args, prm);
            }
            if !expect(TokenType::RightParen, tokens, pos) {
                return None;
            }
        },
    }
    assert(spec_param_list(toks, p as int) == Some((nodes_view(args@), *pos as int)));
    if !expect(TokenType::LeftBrace, tokens, pos) {
        return None;
    }
    let body = match compound_stmt(tokens, pos) {
        Some(n) => n,
        None => {
            return None;
        },
    };
    Some(Node::new(NodeType::Func(name, args, Box::new(body))))
}

/// Parses the tokens into the function definitions they spell; `None` exactly
/// where they spell no program.
pub fn try_parse(tokens: &Vec<Token>) -> (r: Option<Vec<Node>>)
    ensures
        match spec_parse(kinds(tokens@)) {
            Some(fs) => r matches Some(v) && nodes_view(v@) == fs,
            None => r is None,
        },
{
    proof {
        lemma_kinds_len(tokens@);
    }
    let ghost toks = kinds(tokens@);
    let mut pos: usize = 0;
    let mut v: Vec<Node> = Vec::new();
    while tokens.len() != pos
        invariant
            pos <= tokens@.len(),
            toks == kinds(tokens@),
            toks.len() == tokens@.len(),
            spec_functions(toks, pos as int, nodes_view(v@)) == spec_parse(toks),
        decreases tokens@.len() - pos,
    {
        let f = match function(tokens, &mut pos) {
            Some(f) => f,
            None => {
                return None;
            },
        };
        push_node(&mut v, f);
    }
    Some(v)
}

/// Parses the tokens into the function definitions they spell.
pub fn parse(tokens: &Vec<Token>) -> (nodes: Vec<Node>)
    requires
        spec_parse(kinds(tokens@)) is Some,
    ensures
        nodes_view(nodes@) == spec_parse(kinds(tokens@)).unwrap(),
{
    match try_parse(tokens) {
        Some(v) => v,
        None => unreached(),
    }
}

/// A copy of the type `t`.
fn copy_type(t: &Type) -> (r: Type)
    ensures
        r == *t,
    decreases t,
{
    match &t.ty {
        Ctype::Int => Type { ty: Ctype::Int },
        Ctype::Ptr(inner) => Type { ty: Ctype::Ptr(Box::new(copy_type(&**inner))) },
        Ctype::Ary(inner, n) => Type { ty: Ctype::Ary(Box::new(copy_type(&**inner)), *n) },
    }
}

impl Clone for Type {
    fn clone(&self) -> (r: Self)
        ensures
            r == *self,
    {
        copy_type(self)
    }
}

impl Clone for Ctype {
    fn clone(&self) -> (r: Self)
        ensures
            r == *self,
    {
        match self {
            Ctype::Int => Ctype::Int,
            Ctype::Ptr(inner) => Ctype::Ptr(Box::new(copy_type(&**inner))),
            Ctype::Ary(inner, n) => Ctype::Ary(Box::new(copy_type(&**inner)), *n),
        }
    }
}

/// A copy of the node `n`.
fn copy_node(n: &Node) -> (r: Node)
    ensures
        r@ == n@,
    decreases n, 2int,
{
    Node {
        op: copy_op(&n.op),
        ty: Box::new(copy_type(&n.ty)),
        stacksize: n.stacksize,
        offset: n.offset,
    }
}

/// A copy of the optional child `o`.
fn copy_opt(o: &Option<Box<Node>>) -> (r: Option<Box<Node>>)
    ensures
        opt_view(r) == opt_view(*o),
    decreases o, 2int,
{
    match o {
        Some(b) => Some(Box::new(copy_node(&**b))),
        None => None,
    }
}

/// A copy of the nodes `v`.
fn copy_nodes(v: &Vec<Node>) -> (r: Vec<Node>)
    ensures
        nodes_view(r@) == nodes_view(v@),
    decreases v, 2int,
{
    let mut r: Vec<Node> = Vec::new();
    let mut i: usize = 0;
    while i < v.len()
        invariant
            i <= v@.len(),
            nodes_view(r@) == nodes_view(v@.take(i as int)),
        decreases v@.len() - i,
    {
        assert(v@.take(i as int + 1).drop_last() =~= v@.take(i as int));
        let c = copy_node(&v[i]);
        push_node(&mut r, c);
        i = i + 1;
    }
    assert(v@.take(i as int) =~= v@);
    r
}

/// A copy of the node kind `op`, children included.
fn copy_op(op: &NodeType) -> (r: NodeType)
    ensures
        r@ == op@,
    decreases op, 1int,
{
    match op {
        NodeType::Num(v) => NodeType::Num(*v),
        NodeType::Ident(s) => NodeType::Ident(s.clone()),
        NodeType::Vardef(s, init) => NodeType::Vardef(s.clone(), copy_opt(init)),
        NodeType::Lvar => NodeType::Lvar,
        NodeType::BinOp(t, l, r) => NodeType::BinOp(
            copy_token_type(t),
            Box::new(copy_node(&**l)),
            Box::new(copy_node(&**r)),
        ),
        NodeType::If(c, t, e) => NodeType::If(
            Box::new(copy_node(&**c)),
            Box::new(copy_node(&**t)),
            copy_opt(e),
        ),
        NodeType::For(i, c, s, b) => NodeType::For(
            Box::new(copy_node(&**i)),
            Box::new(copy_node(&**c)),
            Box::new(copy_node(&**s)),
            Box::new(copy_node(&**b)),
        ),
        NodeType::Addr(e) => NodeType::Addr(Box::new(copy_node(&**e))),
        NodeType::Deref(e) => NodeType::Deref(Box::new(copy_node(&**e))),
        NodeType::Logand(l, r) => NodeType::Logand(
            Box::new(copy_node(&**l)),
            Box::new(copy_node(&**r)),
        ),
        NodeType::Logor(l, r) => NodeType::Logor(
            Box::new(copy_node(&**l)),
            Box::new(copy_node(&**r)),
        ),
        NodeType::Return(e) => NodeType::Return(Box::new(copy_node(&**e))),
        NodeType::Sizeof(e) => NodeType::Sizeof(Box::new(copy_node(&**e))),
        NodeType::Call(s, args) => NodeType::Call(s.clone(), copy_nodes(args)),
        NodeType::Func(s, args, body) => NodeType::Func(
            s.clone(),
            copy_nodes(args),
            Box::new(copy_node(&**body)),
        ),
        NodeType::ExprStmt(e) => NodeType::ExprStmt(Box::new(copy_node(&**e))),
        NodeType::CompStmt(ss) => NodeType::CompStmt(copy_nodes(ss)),
    }
}

impl Clone for NodeType {
    fn clone(&self) -> (r: Self)
        ensures
            r@ == self@,
    {
        copy_op(self)
    }
}

impl Clone for Node {
    fn clone(&self) -> (r: Self)
        ensures
            r@ == self@,
    {
        copy_node(self)
    }
}

/// The models of the token kinds without payload.
proof fn lemma_punct_views()
    ensures
        TokenType::Int@ == SpecTokenType::Int,
        TokenType::Char@ == SpecTokenType::Char,
        TokenType::Plus@ == SpecTokenType::Plus,
        TokenType::Minus@ == SpecTokenType::Minus,
        TokenType::Mul@ == SpecTokenType::Mul,
        TokenType::And@ == SpecTokenType::And,
        TokenType::Div@ == SpecTokenType::Div,
        TokenType::If@ == SpecTokenType::If,
        TokenType::Else@ == SpecTokenType::Else,
        TokenType::For@ == SpecTokenType::For,
        TokenType::EQ@ == SpecTokenType::EQ,
        TokenType::NE@ == SpecTokenType::NE,
        TokenType::Semicolon@ == SpecTokenType::Semicolon,
        TokenType::LeftParen@ == SpecTokenType::LeftParen,
        TokenType::RightParen@ == SpecTokenType::RightParen,
        TokenType::LeftBracket@ == SpecTokenType::LeftBracket,
        TokenType::RightBracket@ == SpecTokenType::RightBracket,
        TokenType::LeftBrace@ == SpecTokenType::LeftBrace,
        TokenType::RightBrace@ == SpecTokenType::RightBrace,
        TokenType::LeftAngleBracket@ == SpecTokenType::LeftAngleBracket,
        TokenType::RightAngleBracket@ == SpecTokenType::RightAngleBracket,
        TokenType::Equal@ == SpecTokenType::Equal,
        TokenType::Logor@ == SpecTokenType::Logor,
        TokenType::Logand@ == SpecTokenType::Logand,
        TokenType::Return@ == SpecTokenType::Return,
        TokenType::Sizeof@ == SpecTokenType::Sizeof,
        TokenType::Colon@ == SpecTokenType::Colon,
{
}

/// There is one kind per token.
proof fn lemma_kinds_len(tokens: Seq<Token>)
    ensures
        kinds(tokens).len() == tokens.len(),
{
    reveal(kinds);
}

/// The kind at index `i` is that of the token there.
proof fn lemma_kind_at(tokens: Seq<Token>, i: int)
    requires
        0 <= i < tokens.len(),
    ensures
        kinds(tokens)[i] == tokens[i].ty@,
{
    reveal(kinds);
}

} // verus!

//! The grammar the parser follows, as mathematical functions on token kinds:
//! the models of syntax trees and one spec function per parsing function.

use vstd::prelude::*;
use crate::parse::{Ctype, Type};
use crate::token::SpecTokenType;

verus! {

/// Mathematical model of a `NodeType`: names as chars, child lists as sequences.
pub enum SpecNodeType {
    Num(i32),
    Ident(Seq<char>),
    Vardef(Seq<char>, Option<Box<SpecNode>>),
    Lvar,
    BinOp(SpecTokenType, Box<SpecNode>, Box<SpecNode>),
    If(Box<SpecNode>, Box<SpecNode>, Option<Box<SpecNode>>),
    For(Box<SpecNode>, Box<SpecNode>, Box<SpecNode>, Box<SpecNode>),
    Addr(Box<SpecNode>),
    Deref(Box<SpecNode>),
    Logand(Box<SpecNode>, Box<SpecNode>),
    Logor(Box<SpecNode>, Box<SpecNode>),
    Return(Box<SpecNode>),
    Sizeof(Box<SpecNode>),
    Call(Seq<char>, Seq<SpecNode>),
    Func(Seq<char>, Seq<SpecNode>, Box<SpecNode>),
    ExprStmt(Box<SpecNode>),
    CompStmt(Seq<SpecNode>),
}

/// Mathematical model of a `Node`.
pub struct SpecNode {
    pub op: SpecNodeType,
    pub ty: Type,
    pub stacksize: usize,
    pub offset: usize,
}

/// A node of kind `op` with the default type `int` and no frame data, as `Node::new` makes it.
pub open spec fn new_node(op: SpecNodeType) -> SpecNode {
    SpecNode { op, ty: Type { ty: Ctype::Int }, stacksize: 0, offset: 0 }
}

/// Keeps a parse result that ends after `pos` and within the tokens. Every
/// parsing function consumes at least one token, so this never drops a result;
/// it lets the definitions below recurse on a position they have advanced.
pub open spec fn advanced<T>(toks: Seq<SpecTokenType>, pos: int, r: Option<(T, int)>) -> Option<
    (T, int),
> {
    match r {
        Some((v, p)) => if pos < p <= toks.len() {
            Some((v, p))
        } else {
            None
        },
        None => None,
    }
}

/// `expect`: the token at `pos` must be `ty`; the position after it.
pub open spec fn spec_expect(toks: Seq<SpecTokenType>, pos: int, ty: SpecTokenType) -> Option<int> {
    if 0 <= pos < toks.len() && toks[pos] == ty {
        Some(pos + 1)
    } else {
        None
    }
}

// Expressions. Each function parses at token index `pos` and gives the node and
// the index after it, or `None` where the tokens are refused (a token index out
// of range, an `expect` that fails, a token no rule accepts).

/// primary: number | identifier | call `name ( args )` | `( assign )`
#[verifier::opaque]
pub open spec fn spec_primary(toks: Seq<SpecTokenType>, pos: int) -> Option<(SpecNode, int)>
    decreases toks.len() - pos, 1int,
{
    if !(0 <= pos < toks.len()) {
        None
    } else {
        match toks[pos] {
            SpecTokenType::Num(v) => Some((new_node(SpecNodeType::Num(v)), pos + 1)),
            SpecTokenType::Ident(name) => {
                let p = pos + 1;
                if p >= toks.len() {
                    None
                } else if toks[p] != SpecTokenType::LeftParen {
                    Some((new_node(SpecNodeType::Ident(name)), p))
                } else if p + 1 >= toks.len() {
                    None
                } else if toks[p + 1] == SpecTokenType::RightParen {
                    Some((new_node(SpecNodeType::Call(name, Seq::empty())), p + 2))
                } else {
                    match advanced(toks, p + 1, spec_assign(toks, p + 1)) {
                        None => None,
                        Some((arg, q)) => match spec_call_args(toks, q, seq![arg]) {
                            None => None,
                            Some((args, r)) => match spec_expect(toks, r, SpecTokenType::RightParen) {
                                Some(e) => Some((new_node(SpecNodeType::Call(name, args)), e)),
                                None => None,
                            },
                        },
                    }
                }
            },
            SpecTokenType::LeftParen => match advanced(toks, pos + 1, spec_assign(toks, pos + 1)) {
                None => None,
                Some((n, q)) => match spec_expect(toks, q, SpecTokenType::RightParen) {
                    Some(e) => Some((n, e)),
                    None => None,
                },
            },
            _ => None,
        }
    }
}

/// More call arguments, each after a `,`, appended to `args`.
#[verifier::opaque]
pub open spec fn spec_call_args(toks: Seq<SpecTokenType>, pos: int, args: Seq<SpecNode>) -> Option<
    (Seq<SpecNode>, int),
>
    decreases toks.len() - pos, 0int,
{
    if !(0 <= pos < toks.len()) {
        None
    } else if toks[pos] == SpecTokenType::Colon {
        match advanced(toks, pos + 1, spec_assign(toks, pos + 1)) {
            None => None,
            Some((a, q)) => spec_call_args(toks, q, args.push(a)),
        }
    } else {
        Some((args, pos))
    }
}

/// postfix: primary followed by indexes `[ primary ]`, each read as `*(lhs + index)`.
#[verifier::opaque]
pub open spec fn spec_postfix(toks: Seq<SpecTokenType>, pos: int) -> Option<(SpecNode, int)>
    decreases toks.len() - pos, 2int,
{
    if !(0 <= pos < toks.len()) {
        None
    } else {
        match advanced(toks, pos, spec_primary(toks, pos)) {
            None => None,
            Some((lhs, p)) => spec_postfix_rest(toks, p, lhs),
        }
    }
}

/// The indexes after `lhs`.
#[verifier::opaque]
pub open spec fn spec_postfix_rest(toks: Seq<SpecTokenType>, pos: int, lhs: SpecNode) -> Option<
    (SpecNode, int),
>
    decreases toks.len() - pos, 0int,
{
    if !(0 <= pos < toks.len()) {
        None
    } else if toks[pos] != SpecTokenType::LeftBracket {
        Some((lhs, pos))
    } else {
        match advanced(toks, pos + 1, spec_primary(toks, pos + 1)) {
            None => None,
            Some((index, q)) => {
                let sum = new_node(
                    SpecNodeType::BinOp(SpecTokenType::Plus, Box::new(lhs), Box::new(index)),
                );
                let elem = new_node(SpecNodeType::Deref(Box::new(sum)));
                match spec_expect(toks, q, SpecTokenType::RightBracket) {
                    Some(e) => spec_postfix_rest(toks, e, elem),
                    None => None,
                }
            },
        }
    }
}

/// unary: `* mul` | `& mul` | `sizeof unary` | postfix
#[verifier::opaque]
pub open spec fn spec_unary(toks: Seq<SpecTokenType>, pos: int) -> Option<(SpecNode, int)>
    decreases toks.len() - pos, 3int,
{
    if !(0 <= pos < toks.len()) {
        None
    } else if toks[pos] == SpecTokenType::Mul {
        match spec_mul(toks, pos + 1) {
            Some((n, p)) => Some((new_node(SpecNodeType::Deref(Box::new(n))), p)),
            None => None,
        }
    } else if toks[pos] == SpecTokenType::And {
        match spec_mul(toks, pos + 1) {
            Some((n, p)) => Some((new_node(SpecNodeType::Addr(Box::new(n))), p)),
            None => None,
        }
    } else if toks[pos] == SpecTokenType::Sizeof {
        match spec_unary(toks, pos + 1) {
            Some((n, p)) => Some((new_node(SpecNodeType::Sizeof(Box::new(n))), p)),
            None => None,
        }
    } else {
        spec_postfix(toks, pos)
    }
}

/// mul: unary, then `*` or `/` and a unary, left-associative.
#[verifier::opaque]
pub open spec fn spec_mul(toks: Seq<SpecTokenType>, pos: int) -> Option<(SpecNode, int)>
    decreases toks.len() - pos, 4int,
{
    if !(0 <= pos < toks.len()) {
        None
    } else {
        match advanced(toks, pos, spec_unary(toks, pos)) {
            None => None,
            Some((lhs, p)) => spec_mul_rest(toks, p, lhs),
        }
    }
}

/// The `*` and `/` operands after `lhs`; stops at the end of the tokens.
#[verifier::opaque]
pub open spec fn spec_mul_rest(toks: Seq<SpecTokenType>, pos: int, lhs: SpecNode) -> Option<
    (SpecNode, int),
>
    decreases toks.len() - pos, 0int,
{
    if !(0 <= pos <= toks.len()) {
        None
    } else if pos == toks.len() {
        Some((lhs, pos))
    } else if toks[pos] != SpecTokenType::Mul && toks[pos] != SpecTokenType::Div {
        Some((lhs, pos))
    } else {
        match advanced(toks, pos + 1, spec_unary(toks, pos + 1)) {
            None => None,
            Some((rhs, q)) => spec_mul_rest(
                toks,
                q,
                new_node(SpecNodeType::BinOp(toks[pos], Box::new(lhs), Box::new(rhs))),
            ),
        }
    }
}

/// add: mul, then `+` or `-` and a mul, left-associative.
#[verifier::opaque]
pub open spec fn spec_add(toks: Seq<SpecTokenType>, pos: int) -> Option<(SpecNode, int)>
    decreases toks.len() - pos, 5int,
{
    if !(0 <= pos < toks.len()) {
        None
    } else {
        match advanced(toks, pos, spec_mul(toks, pos)) {
            None => None,
            Some((lhs, p)) => spec_add_rest(toks, p, lhs),
        }
    }
}

/// The `+` and `-` operands after `lhs`; stops at the end of the tokens.
#[verifier::opaque]
pub open spec fn spec_add_rest(toks: Seq<SpecTokenType>, pos: int, lhs: SpecNode) -> Option<
    (SpecNode, int),
>
    decreases toks.len() - pos, 0int,
{
    if !(0 <= pos <= toks.len()) {
        None
    } else if pos == toks.len() {
        Some((lhs, pos))
    } else if toks[pos] != SpecTokenType::Plus && toks[pos] != SpecTokenType::Minus {
        Some((lhs, pos))
    } else {
        match advanced(toks, pos + 1, spec_mul(toks, pos + 1)) {
            None => None,
            Some((rhs, q)) => spec_add_rest(
                toks,
                q,
                new_node(SpecNodeType::BinOp(toks[pos], Box::new(lhs), Box::new(rhs))),
            ),
        }
    }
}

/// rel: add, then `<` or `>` and an add, left-associative; `a > b` is read as `b < a`.
#[verifier::opaque]
pub open spec fn spec_rel(toks: Seq<SpecTokenType>, pos: int) -> Option<(SpecNode, int)>
    decreases toks.len() - pos, 6int,
{
    if !(0 <= pos < toks.len()) {
        None
    } else {
        match advanced(toks, pos, spec_add(toks, pos)) {
            None => None,
            Some((lhs, p)) => spec_rel_rest(toks, p, lhs),
        }
    }
}

/// The `<` and `>` operands after `lhs`.
#[verifier::opaque]
pub open spec fn spec_rel_rest(toks: Seq<SpecTokenType>, pos: int, lhs: SpecNode) -> Option<
    (SpecNode, int),
>
    decreases toks.len() - pos, 0int,
{
    if !(0 <= pos < toks.len()) {
        None
    } else if toks[pos] == SpecTokenType::LeftAngleBracket {
        match advanced(toks, pos + 1, spec_add(toks, pos + 1)) {
            None => None,
            Some((rhs, q)) => spec_rel_rest(
                toks,
                q,
                new_node(
                    SpecNodeType::BinOp(SpecTokenType::LeftAngleBracket, Box::new(lhs), Box::new(rhs)),
                ),
            ),
        }
    } else if toks[pos] == SpecTokenType::RightAngleBracket {
        match advanced(toks, pos + 1, spec_add(toks, pos + 1)) {
            None => None,
            Some((rhs, q)) => spec_rel_rest(
                toks,
                q,
                new_node(
                    SpecNodeType::BinOp(SpecTokenType::LeftAngleBracket, Box::new(rhs), Box::new(lhs)),
                ),
            ),
        }
    } else {
        Some((lhs, pos))
    }
}

/// logand: rel, then `&&` and a rel, left-associative.
#[verifier::opaque]
pub open spec fn spec_logand(toks: Seq<SpecTokenType>, pos: int) -> Option<(SpecNode, int)>
    decreases toks.len() - pos, 7int,
{
    if !(0 <= pos < toks.len()) {
        None
    } else {
        match advanced(toks, pos, spec_rel(toks, pos)) {
            None => None,
            Some((lhs, p)) => spec_logand_rest(toks, p, lhs),
        }
    }
}

/// The `&&` operands after `lhs`.
#[verifier::opaque]
pub open spec fn spec_logand_rest(toks: Seq<SpecTokenType>, pos: int, lhs: SpecNode) -> Option<
    (SpecNode, int),
>
    decreases toks.len() - pos, 0int,
{
    if !(0 <= pos < toks.len()) {
        None
    } else if toks[pos] != SpecTokenType::Logand {
        Some((lhs, pos))
    } else {
        match advanced(toks, pos + 1, spec_rel(toks, pos + 1)) {
            None => None,
            Some((rhs, q)) => spec_logand_rest(
                toks,
                q,
                new_node(SpecNodeType::Logand(Box::new(lhs), Box::new(rhs))),
            ),
        }
    }
}

/// logor: logand, then `||` and a logand, left-associative.
#[verifier::opaque]
pub open spec fn spec_logor(toks: Seq<SpecTokenType>, pos: int) -> Option<(SpecNode, int)>
    decreases toks.len() - pos, 8int,
{
    if !(0 <= pos < toks.len()) {
        None
    } else {
        match advanced(toks, pos, spec_logand(toks, pos)) {
            None => None,
            Some((lhs, p)) => spec_logor_rest(toks, p, lhs),
        }
    }
}

/// The `||` operands after `lhs`.
#[verifier::opaque]
pub open spec fn spec_logor_rest(toks: Seq<SpecTokenType>, pos: int, lhs: SpecNode) -> Option<
    (SpecNode, int),
>
    decreases toks.len() - pos, 0int,
{
    if !(0 <= pos < toks.len()) {
        None
    } else if toks[pos] != SpecTokenType::Logor {
        Some((lhs, pos))
    } else {
        match advanced(toks, pos + 1, spec_logand(toks, pos + 1)) {
            None => None,
            Some((rhs, q)) => spec_logor_rest(
                toks,
                q,
                new_node(SpecNodeType::Logor(Box::new(lhs), Box::new(rhs))),
            ),
        }
    }
}

/// assign: logor, optionally followed by `= logor`.
#[verifier::opaque]
pub open spec fn spec_assign(toks: Seq<SpecTokenType>, pos: int) -> Option<(SpecNode, int)>
    decreases toks.len() - pos, 9int,
{
    if !(0 <= pos < toks.len()) {
        None
    } else {
        match advanced(toks, pos, spec_logor(toks, pos)) {
            None => None,
            Some((lhs, p)) => if p >= toks.len() {
                None
            } else if toks[p] == SpecTokenType::Equal {
                match spec_logor(toks, p + 1) {
                    Some((rhs, q)) => Some(
                        (
                            new_node(
                                SpecNodeType::BinOp(SpecTokenType::Equal, Box::new(lhs), Box::new(rhs)),
                            ),
                            q,
                        ),
                    ),
                    None => None,
                }
            } else {
                Some((lhs, p))
            },
        }
    }
}

// Types and declarations.

/// The pointer stars after a type name: each wraps the type `ty` so far in a pointer.
pub open spec fn spec_pointers(toks: Seq<SpecTokenType>, pos: int, ty: Ctype) -> Option<(Type, int)>
    decreases toks.len() - pos,
{
    if !(0 <= pos < toks.len()) {
        None
    } else if toks[pos] == SpecTokenType::Mul {
        spec_pointers(toks, pos + 1, Ctype::Ptr(Box::new(Type { ty })))
    } else {
        Some((Type { ty }, pos))
    }
}

/// ctype: `int` followed by pointer stars.
pub open spec fn spec_ctype(toks: Seq<SpecTokenType>, pos: int) -> Option<(Type, int)> {
    if !(0 <= pos < toks.len()) || toks[pos] != SpecTokenType::Int {
        None
    } else {
        spec_pointers(toks, pos + 1, Ctype::Int)
    }
}

/// Array dimensions `[ number ]`, appended to `dims` in order; a dimension that
/// is not a number literal is refused.
pub open spec fn spec_dims(toks: Seq<SpecTokenType>, pos: int, dims: Seq<usize>) -> Option<
    (Seq<usize>, int),
>
    decreases toks.len() - pos,
{
    if !(0 <= pos < toks.len()) {
        None
    } else if toks[pos] != SpecTokenType::LeftBracket {
        Some((dims, pos))
    } else {
        match advanced(toks, pos + 1, spec_primary(toks, pos + 1)) {
            None => None,
            Some((len, q)) => match len.op {
                SpecNodeType::Num(n) => match spec_expect(toks, q, SpecTokenType::RightBracket) {
                    Some(e) => spec_dims(toks, e, dims.push(n as usize)),
                    None => None,
                },
                _ => None,
            },
        }
    }
}

/// `ty` wrapped in arrays of the lengths `dims`, the first length innermost.
pub open spec fn array_of(ty: Type, dims: Seq<usize>) -> Type
    decreases dims.len(),
{
    if dims.len() == 0 {
        ty
    } else {
        Type { ty: Ctype::Ary(Box::new(array_of(ty, dims.drop_last())), dims.last()) }
    }
}

/// read_array: the dimensions after a declared name, applied to `ty`.
pub open spec fn spec_read_array(ty: Type, toks: Seq<SpecTokenType>, pos: int) -> Option<(Type, int)> {
    match spec_dims(toks, pos, Seq::empty()) {
        Some((dims, p)) => Some((array_of(ty, dims), p)),
        None => None,
    }
}

/// A variable definition of `name` with type `ty`.
pub open spec fn vardef(name: Seq<char>, init: Option<Box<SpecNode>>, ty: Type) -> SpecNode {
    SpecNode { op: SpecNodeType::Vardef(name, init), ty, stacksize: 0, offset: 0 }
}

/// decl: `ctype name dims (= assign)? ;`
pub open spec fn spec_decl(toks: Seq<SpecTokenType>, pos: int) -> Option<(SpecNode, int)> {
    match spec_ctype(toks, pos) {
        None => None,
        Some((ty, p)) => if !(p < toks.len()) {
            None
        } else {
            match toks[p] {
                SpecTokenType::Ident(name) => match spec_read_array(ty, toks, p + 1) {
                    None => None,
                    Some((ty2, q)) => if !(q < toks.len()) {
                        None
                    } else if toks[q] == SpecTokenType::Equal {
                        match spec_assign(toks, q + 1) {
                            None => None,
                            Some((init, r)) => match spec_expect(toks, r, SpecTokenType::Semicolon) {
                                Some(e) => Some((vardef(name, Some(Box::new(init)), ty2), e)),
                                None => None,
                            },
                        }
                    } else {
                        match spec_expect(toks, q, SpecTokenType::Semicolon) {
                            Some(e) => Some((vardef(name, None, ty2), e)),
                            None => None,
                        }
                    },
                },
                _ => None,
            }
        },
    }
}

/// param: `ctype name`
pub open spec fn spec_param(toks: Seq<SpecTokenType>, pos: int) -> Option<(SpecNode, int)> {
    match spec_ctype(toks, pos) {
        None => None,
        Some((ty, p)) => if !(p < toks.len()) {
            None
        } else {
            match toks[p] {
                SpecTokenType::Ident(name) => Some((vardef(name, None, ty), p + 1)),
                _ => None,
            }
        },
    }
}

/// expr_stmt: `assign ;`
pub open spec fn spec_expr_stmt(toks: Seq<SpecTokenType>, pos: int) -> Option<(SpecNode, int)> {
    match spec_assign(toks, pos) {
        None => None,
        Some((e, p)) => match spec_expect(toks, p, SpecTokenType::Semicolon) {
            Some(q) => Some((new_node(SpecNodeType::ExprStmt(Box::new(e))), q)),
            None => None,
        },
    }
}

// Statements.

/// stmt: declaration | `if ( assign ) stmt (else stmt)?`
/// | `for ( decl-or-expr_stmt assign ; assign ) stmt` | `return assign ;`
/// | `{ stmt* }` | `assign ;`
#[verifier::opaque]
pub open spec fn spec_stmt(toks: Seq<SpecTokenType>, pos: int) -> Option<(SpecNode, int)>
    decreases toks.len() - pos, 0int,
{
    if !(0 <= pos < toks.len()) {
        None
    } else {
        match toks[pos] {
            SpecTokenType::Int => spec_decl(toks, pos),
            SpecTokenType::If => match spec_expect(toks, pos + 1, SpecTokenType::LeftParen) {
                None => None,
                Some(p) => match advanced(toks, p, spec_assign(toks, p)) {
                    None => None,
                    Some((cond, q)) => match spec_expect(toks, q, SpecTokenType::RightParen) {
                        None => None,
                        Some(r) => match advanced(toks, r, spec_stmt(toks, r)) {
                            None => None,
                            Some((then, t)) => if !(t < toks.len()) {
                                None
                            } else if toks[t] == SpecTokenType::Else {
                                match spec_stmt(toks, t + 1) {
                                    Some((els, u)) => Some(
                                        (
                                            new_node(
                                                SpecNodeType::If(
                                                    Box::new(cond),
                                                    Box::new(then),
                                                    Some(Box::new(els)),
                                                ),
                                            ),
                                            u,
                                        ),
                                    ),
                                    None => None,
                                }
                            } else {
                                Some(
                                    (
                                        new_node(
                                            SpecNodeType::If(Box::new(cond), Box::new(then), None),
                                        ),
                                        t,
                                    ),
                                )
                            },
                        },
                    },
                },
            },
            SpecTokenType::For => match spec_expect(toks, pos + 1, SpecTokenType::LeftParen) {
                None => None,
                Some(p) => {
                    let init_r = if !(p < toks.len()) {
                        None
                    } else if toks[p] == SpecTokenType::Int {
                        spec_decl(toks, p)
                    } else {
                        spec_expr_stmt(toks, p)
                    };
                    match advanced(toks, p, init_r) {
                        None => None,
                        Some((init, q)) => match advanced(toks, q, spec_assign(toks, q)) {
                            None => None,
                            Some((cond, r)) => match spec_expect(toks, r, SpecTokenType::Semicolon) {
                                None => None,
                                Some(r2) => match advanced(toks, r2, spec_assign(toks, r2)) {
                                    None => None,
                                    Some((inc, t)) => match spec_expect(
                                        toks,
                                        t,
                                        SpecTokenType::RightParen,
                                    ) {
                                        None => None,
                                        Some(t2) => match spec_stmt(toks, t2) {
                                            None => None,
                                            Some((body, u)) => Some(
                                                (
                                                    new_node(
                                                        SpecNodeType::For(
                                                            Box::new(init),
                                                            Box::new(cond),
                                                            Box::new(inc),
                                                            Box::new(body),
                                                        ),
                                                    ),
                                                    u,
                                                ),
                                            ),
                                        },
                                    },
                                },
                            },
                        },
                    }
                },
            },
            SpecTokenType::Return => match spec_assign(toks, pos + 1) {
                None => None,
                Some((e, p)) => match spec_expect(toks, p, SpecTokenType::Semicolon) {
                    Some(q) => Some((new_node(SpecNodeType::Return(Box::new(e))), q)),
                    None => None,
                },
            },
            SpecTokenType::LeftBrace => spec_compound_stmt(toks, pos + 1),
            _ => match spec_assign(toks, pos) {
                None => None,
                Some((e, p)) => match spec_expect(toks, p, SpecTokenType::Semicolon) {
                    Some(q) => Some((new_node(SpecNodeType::ExprStmt(Box::new(e))), q)),
                    None => None,
                },
            },
        }
    }
}

/// Statements up to and including the closing `}`, appended to `stmts`.
#[verifier::opaque]
pub open spec fn spec_stmts(toks: Seq<SpecTokenType>, pos: int, stmts: Seq<SpecNode>) -> Option<
    (Seq<SpecNode>, int),
>
    decreases toks.len() - pos, 1int,
{
    if !(0 <= pos < toks.len()) {
        None
    } else if toks[pos] == SpecTokenType::RightBrace {
        Some((stmts, pos + 1))
    } else {
        match advanced(toks, pos, spec_stmt(toks, pos)) {
            None => None,
            Some((st, q)) => spec_stmts(toks, q, stmts.push(st)),
        }
    }
}

/// compound_stmt: `stmt* }` (the `{` is already consumed).
#[verifier::opaque]
pub open spec fn spec_compound_stmt(toks: Seq<SpecTokenType>, pos: int) -> Option<(SpecNode, int)>
    decreases toks.len() - pos, 2int,
{
    match spec_stmts(toks, pos, Seq::empty()) {
        Some((stmts, p)) => Some((new_node(SpecNodeType::CompStmt(stmts)), p)),
        None => None,
    }
}

// Function definitions.

/// More parameters, each after a `,`, appended to `params`.
pub open spec fn spec_params(toks: Seq<SpecTokenType>, pos: int, params: Seq<SpecNode>) -> Option<
    (Seq<SpecNode>, int),
>
    decreases toks.len() - pos,
{
    if !(0 <= pos < toks.len()) {
        None
    } else if toks[pos] == SpecTokenType::Colon {
        match advanced(toks, pos + 1, spec_param(toks, pos + 1)) {
            None => None,
            Some((prm, q)) => spec_params(toks, q, params.push(prm)),
        }
    } else {
        Some((params, pos))
    }
}

/// The parameter list after `(`, closing `)` included.
pub open spec fn spec_param_list(toks: Seq<SpecTokenType>, pos: int) -> Option<(Seq<SpecNode>, int)> {
    if !(0 <= pos < toks.len()) {
        None
    } else if toks[pos] == SpecTokenType::RightParen {
        Some((Seq::empty(), pos + 1))
    } else {
        match spec_param(toks, pos) {
            None => None,
            Some((first, p)) => match spec_params(toks, p, seq![first]) {
                None => None,
                Some((params, q)) => match spec_expect(toks, q, SpecTokenType::RightParen) {
                    Some(r) => Some((params, r)),
                    None => None,
                },
            },
        }
    }
}

/// function: `int name ( params ) { stmt* }`
pub open spec fn spec_function(toks: Seq<SpecTokenType>, pos: int) -> Option<(SpecNode, int)> {
    if !(0 <= pos < toks.len()) || toks[pos] != SpecTokenType::Int || !(pos + 1 < toks.len()) {
        None
    } else {
        match toks[pos + 1] {
            SpecTokenType::Ident(name) => match spec_expect(toks, pos + 2, SpecTokenType::LeftParen) {
                None => None,
                Some(p) => match spec_param_list(toks, p) {
                    None => None,
                    Some((params, q)) => match spec_expect(toks, q, SpecTokenType::LeftBrace) {
                        None => None,
                        Some(r) => match spec_compound_stmt(toks, r) {
                            Some((body, e)) => Some(
                                (new_node(SpecNodeType::Func(name, params, Box::new(body))), e),
                            ),
                            None => None,
                        },
                    },
                },
            },
            _ => None,
        }
    }
}

/// Function definitions from `pos` to the end of the tokens, appended to `funcs`.
pub open spec fn spec_functions(toks: Seq<SpecTokenType>, pos: int, funcs: Seq<SpecNode>) -> Option<
    Seq<SpecNode>,
>
    decreases toks.len() - pos,
{
    if !(0 <= pos <= toks.len()) {
        None
    } else if pos == toks.len() {
        Some(funcs)
    } else {
        match advanced(toks, pos, spec_function(toks, pos)) {
            None => None,
            Some((f, p)) => spec_functions(toks, p, funcs.push(f)),
        }
    }
}

/// The program the tokens spell: its function definitions, in order; `None`
/// where the tokens spell no program.
pub open spec fn spec_parse(toks: Seq<SpecTokenType>) -> Option<Seq<SpecNode>> {
    spec_functions(toks, 0, Seq::empty())
}

/// One step of `spec_primary`: its definition.
pub proof fn lemma_unfold_primary(toks: Seq<SpecTokenType>, pos: int)
    ensures
        spec_primary(toks, pos) == ({
            if !(0 <= pos < toks.len()) {
                None
            } else {
                match toks[pos] {
                    SpecTokenType::Num(v) => Some((new_node(SpecNodeType::Num(v)), pos + 1)),
                    SpecTokenType::Ident(name) => {
                        let p = pos + 1;
                        if p >= toks.len() {
                            None
                        } else if toks[p] != SpecTokenType::LeftParen {
                            Some((new_node(SpecNodeType::Ident(name)), p))
                        } else if p + 1 >= toks.len() {
                            None
                        } else if toks[p + 1] == SpecTokenType::RightParen {
                            Some((new_node(SpecNodeType::Call(name, Seq::empty())), p + 2))
                        } else {
                            match advanced(toks, p + 1, spec_assign(toks, p + 1)) {
                                None => None,
                                Some((arg, q)) => match spec_call_args(toks, q, seq![arg]) {
                                    None => None,
                                    Some((args, r)) => match spec_expect(toks, r, SpecTokenType::RightParen) {
                                        Some(e) => Some((new_node(SpecNodeType::Call(name, args)), e)),
                                        None => None,
                                    },
                                },
                            }
                        }
                    },
                    SpecTokenType::LeftParen => match advanced(toks, pos + 1, spec_assign(toks, pos + 1)) {
                        None => None,
                        Some((n, q)) => match spec_expect(toks, q, SpecTokenType::RightParen) {
                            Some(e) => Some((n, e)),
                            None => None,
                        },
                    },
                    _ => None,
                }
            }
        }),
{
    reveal(spec_primary);
    reveal(spec_assign);
    reveal(spec_call_args);
}

/// One step of `spec_call_args`: its definition.
pub proof fn lemma_unfold_call_args(toks: Seq<SpecTokenType>, pos: int, args: Seq<SpecNode>)
    ensures
        spec_call_args(toks, pos, args) == ({
            if !(0 <= pos < toks.len()) {
                None
            } else if toks[pos] == SpecTokenType::Colon {
                match advanced(toks, pos + 1, spec_assign(toks, pos + 1)) {
                    None => None,
                    Some((a, q)) => spec_call_args(toks, q, args.push(a)),
                }
            } else {
                Some((args, pos))
            }
        }),
{
    reveal(spec_call_args);
    reveal(spec_assign);
}

/// One step of `spec_postfix`: its definition.
pub proof fn lemma_unfold_postfix(toks: Seq<SpecTokenType>, pos: int)
    ensures
        spec_postfix(toks, pos) == ({
            if !(0 <= pos < toks.len()) {
                None
            } else {
                match advanced(toks, pos, spec_primary(toks, pos)) {
                    None => None,
                    Some((lhs, p)) => spec_postfix_rest(toks, p, lhs),
                }
            }
        }),
{
    reveal(spec_postfix);
    reveal(spec_postfix_rest);
    reveal(spec_primary);
}

/// One step of `spec_postfix_rest`: its definition.
pub proof fn lemma_unfold_postfix_rest(toks: Seq<SpecTokenType>, pos: int, lhs: SpecNode)
    ensures
        spec_postfix_rest(toks, pos, lhs) == ({
            if !(0 <= pos < toks.len()) {
                None
            } else if toks[pos] != SpecTokenType::LeftBracket {
                Some((lhs, pos))
            } else {
                match advanced(toks, pos + 1, spec_primary(toks, pos + 1)) {
                    None => None,
                    Some((index, q)) => {
                        let sum = new_node(
                            SpecNodeType::BinOp(SpecTokenType::Plus, Box::new(lhs), Box::new(index)),
                        );
                        let elem = new_node(SpecNodeType::Deref(Box::new(sum)));
                        match spec_expect(toks, q, SpecTokenType::RightBracket) {
                            Some(e) => spec_postfix_rest(toks, e, elem),
                            None => None,
                        }
                    },
                }
            }
        }),
{
    reveal(spec_postfix_rest);
    reveal(spec_primary);
}

/// One step of `spec_unary`: its definition.
pub proof fn lemma_unfold_unary(toks: Seq<SpecTokenType>, pos: int)
    ensures
        spec_unary(toks, pos) == ({
            if !(0 <= pos < toks.len()) {
                None
            } else if toks[pos] == SpecTokenType::Mul {
                match spec_mul(toks, pos + 1) {
                    Some((n, p)) => Some((new_node(SpecNodeType::Deref(Box::new(n))), p)),
                    None => None,
                }
            } else if toks[pos] == SpecTokenType::And {
                match spec_mul(toks, pos + 1) {
                    Some((n, p)) => Some((new_node(SpecNodeType::Addr(Box::new(n))), p)),
                    None => None,
                }
            } else if toks[pos] == SpecTokenType::Sizeof {
                match spec_unary(toks, pos + 1) {
                    Some((n, p)) => Some((new_node(SpecNodeType::Sizeof(Box::new(n))), p)),
                    None => None,
                }
            } else {
                spec_postfix(toks, pos)
            }
        }),
{
    reveal(spec_unary);
    reveal(spec_mul);
    reveal(spec_postfix);
}

/// One step of `spec_mul`: its definition.
pub proof fn lemma_unfold_mul(toks: Seq<SpecTokenType>, pos: int)
    ensures
        spec_mul(toks, pos) == ({
            if !(0 <= pos < toks.len()) {
                None
            } else {
                match advanced(toks, pos, spec_unary(toks, pos)) {
                    None => None,
                    Some((lhs, p)) => spec_mul_rest(toks, p, lhs),
                }
            }
        }),
{
    reveal(spec_mul);
    reveal(spec_mul_rest);
    reveal(spec_unary);
}

/// One step of `spec_mul_rest`: its definition.
pub proof fn lemma_unfold_mul_rest(toks: Seq<SpecTokenType>, pos: int, lhs: SpecNode)
    ensures
        spec_mul_rest(toks, pos, lhs) == ({
            if !(0 <= pos <= toks.len()) {
                None
            } else if pos == toks.len() {
                Some((lhs, pos))
            } else if toks[pos] != SpecTokenType::Mul && toks[pos] != SpecTokenType::Div {
                Some((lhs, pos))
            } else {
                match advanced(toks, pos + 1, spec_unary(toks, pos + 1)) {
                    None => None,
                    Some((rhs, q)) => spec_mul_rest(
                        toks,
                        q,
                        new_node(SpecNodeType::BinOp(toks[pos], Box::new(lhs), Box::new(rhs))),
                    ),
                }
            }
        }),
{
    reveal(spec_mul_rest);
    reveal(spec_unary);
}

/// One step of `spec_add`: its definition.
pub proof fn lemma_unfold_add(toks: Seq<SpecTokenType>, pos: int)
    ensures
        spec_add(toks, pos) == ({
            if !(0 <= pos < toks.len()) {
                None
            } else {
                match advanced(toks, pos, spec_mul(toks, pos)) {
                    None => None,
                    Some((lhs, p)) => spec_add_rest(toks, p, lhs),
                }
            }
        }),
{
    reveal(spec_add);
    reveal(spec_add_rest);
    reveal(spec_mul);
}

/// One step of `spec_add_rest`: its definition.
pub proof fn lemma_unfold_add_rest(toks: Seq<SpecTokenType>, pos: int, lhs: SpecNode)
    ensures
        spec_add_rest(toks, pos, lhs) == ({
            if !(0 <= pos <= toks.len()) {
                None
            } else if pos == toks.len() {
                Some((lhs, pos))
            } else if toks[pos] != SpecTokenType::Plus && toks[pos] != SpecTokenType::Minus {
                Some((lhs, pos))
            } else {
                match advanced(toks, pos + 1, spec_mul(toks, pos + 1)) {
                    None => None,
                    Some((rhs, q)) => spec_add_rest(
                        toks,
                        q,
                        new_node(SpecNodeType::BinOp(toks[pos], Box::new(lhs), Box::new(rhs))),
                    ),
                }
            }
        }),
{
    reveal(spec_add_rest);
    reveal(spec_mul);
}

/// One step of `spec_rel`: its definition.
pub proof fn lemma_unfold_rel(toks: Seq<SpecTokenType>, pos: int)
    ensures
        spec_rel(toks, pos) == ({
            if !(0 <= pos < toks.len()) {
                None
            } else {
                match advanced(toks, pos, spec_add(toks, pos)) {
                    None => None,
                    Some((lhs, p)) => spec_rel_rest(toks, p, lhs),
                }
            }
        }),
{
    reveal(spec_rel);
    reveal(spec_add);
    reveal(spec_rel_rest);
}

/// One step of `spec_rel_rest`: its definition.
pub proof fn lemma_unfold_rel_rest(toks: Seq<SpecTokenType>, pos: int, lhs: SpecNode)
    ensures
        spec_rel_rest(toks, pos, lhs) == ({
            if !(0 <= pos < toks.len()) {
                None
            } else if toks[pos] == SpecTokenType::LeftAngleBracket {
                match advanced(toks, pos + 1, spec_add(toks, pos + 1)) {
                    None => None,
                    Some((rhs, q)) => spec_rel_rest(
                        toks,
                        q,
                        new_node(
                            SpecNodeType::BinOp(SpecTokenType::LeftAngleBracket, Box::new(lhs), Box::new(rhs)),
                        ),
                    ),
                }
            } else if toks[pos] == SpecTokenType::RightAngleBracket {
                match advanced(toks, pos + 1, spec_add(toks, pos + 1)) {
                    None => None,
                    Some((rhs, q)) => spec_rel_rest(
                        toks,
                        q,
                        new_node(
                            SpecNodeType::BinOp(SpecTokenType::LeftAngleBracket, Box::new(rhs), Box::new(lhs)),
                        ),
                    ),
                }
            } else {
                Some((lhs, pos))
            }
        }),
{
    reveal(spec_rel_rest);
    reveal(spec_add);
}

/// One step of `spec_logand`: its definition.
pub proof fn lemma_unfold_logand(toks: Seq<SpecTokenType>, pos: int)
    ensures
        spec_logand(toks, pos) == ({
            if !(0 <= pos < toks.len()) {
                None
            } else {
                match advanced(toks, pos, spec_rel(toks, pos)) {
                    None => None,
                    Some((lhs, p)) => spec_logand_rest(toks, p, lhs),
                }
            }
        }),
{
    reveal(spec_logand);
    reveal(spec_logand_rest);
    reveal(spec_rel);
}

/// One step of `spec_logand_rest`: its definition.
pub proof fn lemma_unfold_logand_rest(toks: Seq<SpecTokenType>, pos: int, lhs: SpecNode)
    ensures
        spec_logand_rest(toks, pos, lhs) == ({
            if !(0 <= pos < toks.len()) {
                None
            } else if toks[pos] != SpecTokenType::Logand {
                Some((lhs, pos))
            } else {
                match advanced(toks, pos + 1, spec_rel(toks, pos + 1)) {
                    None => None,
                    Some((rhs, q)) => spec_logand_rest(
                        toks,
                        q,
                        new_node(SpecNodeType::Logand(Box::new(lhs), Box::new(rhs))),
                    ),
                }
            }
        }),
{
    reveal(spec_logand_rest);
    reveal(spec_rel);
}

/// One step of `spec_logor`: its definition.
pub proof fn lemma_unfold_logor(toks: Seq<SpecTokenType>, pos: int)
    ensures
        spec_logor(toks, pos) == ({
            if !(0 <= pos < toks.len()) {
                None
            } else {
                match advanced(toks, pos, spec_logand(toks, pos)) {
                    None => None,
                    Some((lhs, p)) => spec_logor_rest(toks, p, lhs),
                }
            }
        }),
{
    reveal(spec_logor);
    reveal(spec_logand);
    reveal(spec_logor_rest);
}

/// One step of `spec_logor_rest`: its definition.
pub proof fn lemma_unfold_logor_rest(toks: Seq<SpecTokenType>, pos: int, lhs: SpecNode)
    ensures
        spec_logor_rest(toks, pos, lhs) == ({
            if !(0 <= pos < toks.len()) {
                None
            } else if toks[pos] != SpecTokenType::Logor {
                Some((lhs, pos))
            } else {
                match advanced(toks, pos + 1, spec_logand(toks, pos + 1)) {
                    None => None,
                    Some((rhs, q)) => spec_logor_rest(
                        toks,
                        q,
                        new_node(SpecNodeType::Logor(Box::new(lhs), Box::new(rhs))),
                    ),
                }
            }
        }),
{
    reveal(spec_logor_rest);
    reveal(spec_logand);
}

/// One step of `spec_assign`: its definition.
pub proof fn lemma_unfold_assign(toks: Seq<SpecTokenType>, pos: int)
    ensures
        spec_assign(toks, pos) == ({
            if !(0 <= pos < toks.len()) {
                None
            } else {
                match advanced(toks, pos, spec_logor(toks, pos)) {
                    None => None,
                    Some((lhs, p)) => if p >= toks.len() {
                        None
                    } else if toks[p] == SpecTokenType::Equal {
                        match spec_logor(toks, p + 1) {
                            Some((rhs, q)) => Some(
                                (
                                    new_node(
                                        SpecNodeType::BinOp(SpecTokenType::Equal, Box::new(lhs), Box::new(rhs)),
                                    ),
                                    q,
                                ),
                            ),
                            None => None,
                        }
                    } else {
                        Some((lhs, p))
                    },
                }
            }
        }),
{
    reveal(spec_assign);
    reveal(spec_logor);
}

/// One step of `spec_stmt`: its definition.
pub proof fn lemma_unfold_stmt(toks: Seq<SpecTokenType>, pos: int)
    ensures
        spec_stmt(toks, pos) == ({
            if !(0 <= pos < toks.len()) {
                None
            } else {
                match toks[pos] {
                    SpecTokenType::Int => spec_decl(toks, pos),
                    SpecTokenType::If => match spec_expect(toks, pos + 1, SpecTokenType::LeftParen) {
                        None => None,
                        Some(p) => match advanced(toks, p, spec_assign(toks, p)) {
                            None => None,
                            Some((cond, q)) => match spec_expect(toks, q, SpecTokenType::RightParen) {
                                None => None,
                                Some(r) => match advanced(toks, r, spec_stmt(toks, r)) {
                                    None => None,
                                    Some((then, t)) => if !(t < toks.len()) {
                                        None
                                    } else if toks[t] == SpecTokenType::Else {
                                        match spec_stmt(toks, t + 1) {
                                            Some((els, u)) => Some(
                                                (
                                                    new_node(
                                                        SpecNodeType::If(
                                                            Box::new(cond),
                                                            Box::new(then),
                                                            Some(Box::new(els)),
                                                        ),
                                                    ),
                                                    u,
                                                ),
                                            ),
                                            None => None,
                                        }
                                    } else {
                                        Some(
                                            (
                                                new_node(
                                                    SpecNodeType::If(Box::new(cond), Box::new(then), None),
                                                ),
                                                t,
                                            ),
                                        )
                                    },
                                },
                            },
                        },
                    },
                    SpecTokenType::For => match spec_expect(toks, pos + 1, SpecTokenType::LeftParen) {
                        None => None,
                        Some(p) => {
                            let init_r = if !(p < toks.len()) {
                                None
                            } else if toks[p] == SpecTokenType::Int {
                                spec_decl(toks, p)
                            } else {
                                spec_expr_stmt(toks, p)
                            };
                            match advanced(toks, p, init_r) {
                                None => None,
                                Some((init, q)) => match advanced(toks, q, spec_assign(toks, q)) {
                                    None => None,
                                    Some((cond, r)) => match spec_expect(toks, r, SpecTokenType::Semicolon) {
                                        None => None,
                                        Some(r2) => match advanced(toks, r2, spec_assign(toks, r2)) {
                                            None => None,
                                            Some((inc, t)) => match spec_expect(
                                                toks,
                                                t,
                                                SpecTokenType::RightParen,
                                            ) {
                                                None => None,
                                                Some(t2) => match spec_stmt(toks, t2) {
                                                    None => None,
                                                    Some((body, u)) => Some(
                                                        (
                                                            new_node(
                                                                SpecNodeType::For(
                                                                    Box::new(init),
                                                                    Box::new(cond),
                                                                    Box::new(inc),
                                                                    Box::new(body),
                                                                ),
                                                            ),
                                                            u,
                                                        ),
                                                    ),
                                                },
                                            },
                                        },
                                    },
                                },
                            }
                        },
                    },
                    SpecTokenType::Return => match spec_assign(toks, pos + 1) {
                        None => None,
                        Some((e, p)) => match spec_expect(toks, p, SpecTokenType::Semicolon) {
                            Some(q) => Some((new_node(SpecNodeType::Return(Box::new(e))), q)),
                            None => None,
                        },
                    },
                    SpecTokenType::LeftBrace => spec_compound_stmt(toks, pos + 1),
                    _ => match spec_assign(toks, pos) {
                        None => None,
                        Some((e, p)) => match spec_expect(toks, p, SpecTokenType::Semicolon) {
                            Some(q) => Some((new_node(SpecNodeType::ExprStmt(Box::new(e))), q)),
                            None => None,
                        },
                    },
                }
            }
        }),
{
    reveal(spec_stmt);
    reveal(spec_assign);
    reveal(spec_compound_stmt);
}

/// One step of `spec_stmts`: its definition.
pub proof fn lemma_unfold_stmts(toks: Seq<SpecTokenType>, pos: int, stmts: Seq<SpecNode>)
    ensures
        spec_stmts(toks, pos, stmts) == ({
            if !(0 <= pos < toks.len()) {
                None
            } else if toks[pos] == SpecTokenType::RightBrace {
                Some((stmts, pos + 1))
            } else {
                match advanced(toks, pos, spec_stmt(toks, pos)) {
                    None => None,
                    Some((st, q)) => spec_stmts(toks, q, stmts.push(st)),
                }
            }
        }),
{
    reveal(spec_stmts);
    reveal(spec_stmt);
}

/// One step of `spec_compound_stmt`: its definition.
pub proof fn lemma_unfold_compound_stmt(toks: Seq<SpecTokenType>, pos: int)
    ensures
        spec_compound_stmt(toks, pos) == ({
            match spec_stmts(toks, pos, Seq::empty()) {
                Some((stmts, p)) => Some((new_node(SpecNodeType::CompStmt(stmts)), p)),
                None => None,
            }
        }),
{
    reveal(spec_compound_stmt);
    reveal(spec_stmts);
}

// Every parsing function that succeeds consumes at least one token and ends
// within the tokens; so `advanced` never drops a result.

/// `spec_primary` consumes at least one token and stays within the tokens.
pub proof fn lemma_primary_progress(toks: Seq<SpecTokenType>, pos: int)
    ensures
        spec_primary(toks, pos) matches Some((_, p)) ==> pos < p <= toks.len(),
    decreases toks.len() - pos, 1int,
{
    lemma_unfold_primary(toks, pos);
    if 0 <= pos < toks.len() {
        if let SpecTokenType::Ident(name) = toks[pos] {
            let p = pos + 1;
            if p + 1 < toks.len() && toks[p] == SpecTokenType::LeftParen && toks[p + 1]
                != SpecTokenType::RightParen {
                if let Some((arg, q)) = advanced(toks, p + 1, spec_assign(toks, p + 1)) {
                    lemma_call_args_progress(toks, q, seq![arg]);
                }
            }
        }
    }
}

/// `spec_call_args` ends at or after `pos`, within the tokens.
pub proof fn lemma_call_args_progress(toks: Seq<SpecTokenType>, pos: int, args: Seq<SpecNode>)
    ensures
        spec_call_args(toks, pos, args) matches Some((_, p)) ==> pos <= p <= toks.len(),
    decreases toks.len() - pos, 0int,
{
    lemma_unfold_call_args(toks, pos, args);
    if 0 <= pos < toks.len() && toks[pos] == SpecTokenType::Colon {
        if let Some((a, q)) = advanced(toks, pos + 1, spec_assign(toks, pos + 1)) {
            lemma_call_args_progress(toks, q, args.push(a));
        }
    }
}

/// `spec_postfix` consumes at least one token and stays within the tokens.
pub proof fn lemma_postfix_progress(toks: Seq<SpecTokenType>, pos: int)
    ensures
        spec_postfix(toks, pos) matches Some((_, p)) ==> pos < p <= toks.len(),
    decreases toks.len() - pos, 2int,
{
    lemma_unfold_postfix(toks, pos);
    if 0 <= pos < toks.len() {
        if let Some((lhs, p)) = advanced(toks, pos, spec_primary(toks, pos)) {
            lemma_postfix_rest_progress(toks, p, lhs);
        }
    }
}

/// `spec_postfix_rest` ends at or after `pos`, within the tokens.
pub proof fn lemma_postfix_rest_progress(toks: Seq<SpecTokenType>, pos: int, lhs: SpecNode)
    ensures
        spec_postfix_rest(toks, pos, lhs) matches Some((_, p)) ==> pos <= p <= toks.len(),
    decreases toks.len() - pos, 0int,
{
    lemma_unfold_postfix_rest(toks, pos, lhs);
    if 0 <= pos < toks.len() && toks[pos] == SpecTokenType::LeftBracket {
        if let Some((index, q)) = advanced(toks, pos + 1, spec_primary(toks, pos + 1)) {
            let sum = new_node(
                SpecNodeType::BinOp(SpecTokenType::Plus, Box::new(lhs), Box::new(index)),
            );
            let elem = new_node(SpecNodeType::Deref(Box::new(sum)));
            if let Some(e) = spec_expect(toks, q, SpecTokenType::RightBracket) {
                lemma_postfix_rest_progress(toks, e, elem);
            }
        }
    }
}

/// `spec_unary` consumes at least one token and stays within the tokens.
pub proof fn lemma_unary_progress(toks: Seq<SpecTokenType>, pos: int)
    ensures
        spec_unary(toks, pos) matches Some((_, p)) ==> pos < p <= toks.len(),
    decreases toks.len() - pos, 3int,
{
    lemma_unfold_unary(toks, pos);
    if 0 <= pos < toks.len() {
        if toks[pos] == SpecTokenType::Mul || toks[pos] == SpecTokenType::And {
            lemma_mul_progress(toks, pos + 1);
        } else if toks[pos] == SpecTokenType::Sizeof {
            lemma_unary_progress(toks, pos + 1);
        } else {
            lemma_postfix_progress(toks, pos);
        }
    }
}

/// `spec_mul` consumes at least one token and stays within the tokens.
pub proof fn lemma_mul_progress(toks: Seq<SpecTokenType>, pos: int)
    ensures
        spec_mul(toks, pos) matches Some((_, p)) ==> pos < p <= toks.len(),
    decreases toks.len() - pos, 4int,
{
    lemma_unfold_mul(toks, pos);
    if 0 <= pos < toks.len() {
        if let Some((lhs, p)) = advanced(toks, pos, spec_unary(toks, pos)) {
            lemma_mul_rest_progress(toks, p, lhs);
        }
    }
}

/// `spec_mul_rest` ends at or after `pos`, within the tokens.
pub proof fn lemma_mul_rest_progress(toks: Seq<SpecTokenType>, pos: int, lhs: SpecNode)
    ensures
        spec_mul_rest(toks, pos, lhs) matches Some((_, p)) ==> pos <= p <= toks.len(),
    decreases toks.len() - pos, 0int,
{
    lemma_unfold_mul_rest(toks, pos, lhs);
    if 0 <= pos < toks.len() && (toks[pos] == SpecTokenType::Mul || toks[pos] == SpecTokenType::Div) {
        if let Some((rhs, q)) = advanced(toks, pos + 1, spec_unary(toks, pos + 1)) {
            lemma_mul_rest_progress(toks, q, new_node(SpecNodeType::BinOp(toks[pos], Box::new(lhs), Box::new(rhs))));
        }
    }
}

/// `spec_add` consumes at least one token and stays within the tokens.
pub proof fn lemma_add_progress(toks: Seq<SpecTokenType>, pos: int)
    ensures
        spec_add(toks, pos) matches Some((_, p)) ==> pos < p <= toks.len(),
    decreases toks.len() - pos, 5int,
{
    lemma_unfold_add(toks, pos);
    if 0 <= pos < toks.len() {
        if let Some((lhs, p)) = advanced(toks, pos, spec_mul(toks, pos)) {
            lemma_add_rest_progress(toks, p, lhs);
        }
    }
}

/// `spec_add_rest` ends at or after `pos`, within the tokens.
pub proof fn lemma_add_rest_progress(toks: Seq<SpecTokenType>, pos: int, lhs: SpecNode)
    ensures
        spec_add_rest(toks, pos, lhs) matches Some((_, p)) ==> pos <= p <= toks.len(),
    decreases toks.len() - pos, 0int,
{
    lemma_unfold_add_rest(toks, pos, lhs);
    if 0 <= pos < toks.len() && (toks[pos] == SpecTokenType::Plus || toks[pos] == SpecTokenType::Minus) {
        if let Some((rhs, q)) = advanced(toks, pos + 1, spec_mul(toks, pos + 1)) {
            lemma_add_rest_progress(toks, q, new_node(SpecNodeType::BinOp(toks[pos], Box::new(lhs), Box::new(rhs))));
        }
    }
}

/// `spec_rel` consumes at least one token and stays within the tokens.
pub proof fn lemma_rel_progress(toks: Seq<SpecTokenType>, pos: int)
    ensures
        spec_rel(toks, pos) matches Some((_, p)) ==> pos < p <= toks.len(),
    decreases toks.len() - pos, 6int,
{
    lemma_unfold_rel(toks, pos);
    if 0 <= pos < toks.len() {
        if let Some((lhs, p)) = advanced(toks, pos, spec_add(toks, pos)) {
            lemma_rel_rest_progress(toks, p, lhs);
        }
    }
}

/// `spec_rel_rest` ends at or after `pos`, within the tokens.
pub proof fn lemma_rel_rest_progress(toks: Seq<SpecTokenType>, pos: int, lhs: SpecNode)
    ensures
        spec_rel_rest(toks, pos, lhs) matches Some((_, p)) ==> pos <= p <= toks.len(),
    decreases toks.len() - pos, 0int,
{
    lemma_unfold_rel_rest(toks, pos, lhs);
    if 0 <= pos < toks.len() {
        if let Some((rhs, q)) = advanced(toks, pos + 1, spec_add(toks, pos + 1)) {
            if toks[pos] == SpecTokenType::LeftAngleBracket {
                lemma_rel_rest_progress(
                    toks,
                    q,
                    new_node(
                        SpecNodeType::BinOp(SpecTokenType::LeftAngleBracket, Box::new(lhs), Box::new(rhs)),
                    ),
                );
            } else if toks[pos] == SpecTokenType::RightAngleBracket {
                lemma_rel_rest_progress(
                    toks,
                    q,
                    new_node(
                        SpecNodeType::BinOp(SpecTokenType::LeftAngleBracket, Box::new(rhs), Box::new(lhs)),
                    ),
                );
            }
        }
    }
}

/// `spec_logand` consumes at least one token and stays within the tokens.
pub proof fn lemma_logand_progress(toks: Seq<SpecTokenType>, pos: int)
    ensures
        spec_logand(toks, pos) matches Some((_, p)) ==> pos < p <= toks.len(),
    decreases toks.len() - pos, 7int,
{
    lemma_unfold_logand(toks, pos);
    if 0 <= pos < toks.len() {
        if let Some((lhs, p)) = advanced(toks, pos, spec_rel(toks, pos)) {
            lemma_logand_rest_progress(toks, p, lhs);
        }
    }
}

/// `spec_logand_rest` ends at or after `pos`, within the tokens.
pub proof fn lemma_logand_rest_progress(toks: Seq<SpecTokenType>, pos: int, lhs: SpecNode)
    ensures
        spec_logand_rest(toks, pos, lhs) matches Some((_, p)) ==> pos <= p <= toks.len(),
    decreases toks.len() - pos, 0int,
{
    lemma_unfold_logand_rest(toks, pos, lhs);
    if 0 <= pos < toks.len() && (toks[pos] == SpecTokenType::Logand) {
        if let Some((rhs, q)) = advanced(toks, pos + 1, spec_rel(toks, pos + 1)) {
            lemma_logand_rest_progress(toks, q, new_node(SpecNodeType::Logand(Box::new(lhs), Box::new(rhs))));
        }
    }
}

/// `spec_logor` consumes at least one token and stays within the tokens.
pub proof fn lemma_logor_progress(toks: Seq<SpecTokenType>, pos: int)
    ensures
        spec_logor(toks, pos) matches Some((_, p)) ==> pos < p <= toks.len(),
    decreases toks.len() - pos, 8int,
{
    lemma_unfold_logor(toks, pos);
    if 0 <= pos < toks.len() {
        if let Some((lhs, p)) = advanced(toks, pos, spec_logand(toks, pos)) {
            lemma_logor_rest_progress(toks, p, lhs);
        }
    }
}

/// `spec_logor_rest` ends at or after `pos`, within the tokens.
pub proof fn lemma_logor_rest_progress(toks: Seq<SpecTokenType>, pos: int, lhs: SpecNode)
    ensures
        spec_logor_rest(toks, pos, lhs) matches Some((_, p)) ==> pos <= p <= toks.len(),
    decreases toks.len() - pos, 0int,
{
    lemma_unfold_logor_rest(toks, pos, lhs);
    if 0 <= pos < toks.len() && (toks[pos] == SpecTokenType::Logor) {
        if let Some((rhs, q)) = advanced(toks, pos + 1, spec_logand(toks, pos + 1)) {
            lemma_logor_rest_progress(toks, q, new_node(SpecNodeType::Logor(Box::new(lhs), Box::new(rhs))));
        }
    }
}

/// `spec_assign` consumes at least one token and stays within the tokens.
pub proof fn lemma_assign_progress(toks: Seq<SpecTokenType>, pos: int)
    ensures
        spec_assign(toks, pos) matches Some((_, p)) ==> pos < p <= toks.len(),
    decreases toks.len() - pos, 9int,
{
    lemma_unfold_assign(toks, pos);
    if 0 <= pos < toks.len() {
        if let Some((lhs, p)) = advanced(toks, pos, spec_logor(toks, pos)) {
            if p < toks.len() && toks[p] == SpecTokenType::Equal {
                lemma_logor_progress(toks, p + 1);
            }
        }
    }
}

/// `spec_pointers` ends at or after `pos`, within the tokens.
pub proof fn lemma_pointers_progress(toks: Seq<SpecTokenType>, pos: int, ty: Ctype)
    ensures
        spec_pointers(toks, pos, ty) matches Some((_, p)) ==> pos <= p <= toks.len(),
    decreases toks.len() - pos,
{
    if 0 <= pos < toks.len() && toks[pos] == SpecTokenType::Mul {
        lemma_pointers_progress(toks, pos + 1, Ctype::Ptr(Box::new(Type { ty })));
    }
}

/// `spec_ctype` consumes at least one token and stays within the tokens.
pub proof fn lemma_ctype_progress(toks: Seq<SpecTokenType>, pos: int)
    ensures
        spec_ctype(toks, pos) matches Some((_, p)) ==> pos < p <= toks.len(),
{
    lemma_pointers_progress(toks, pos + 1, Ctype::Int);
}

/// `spec_dims` ends at or after `pos`, within the tokens.
pub proof fn lemma_dims_progress(toks: Seq<SpecTokenType>, pos: int, dims: Seq<usize>)
    ensures
        spec_dims(toks, pos, dims) matches Some((_, p)) ==> pos <= p <= toks.len(),
    decreases toks.len() - pos,
{
    if 0 <= pos < toks.len() && toks[pos] == SpecTokenType::LeftBracket {
        if let Some((len, q)) = advanced(toks, pos + 1, spec_primary(toks, pos + 1)) {
            if let SpecNodeType::Num(n) = len.op {
                if let Some(e) = spec_expect(toks, q, SpecTokenType::RightBracket) {
                    lemma_dims_progress(toks, e, dims.push(n as usize));
                }
            }
        }
    }
}

/// `spec_decl` consumes at least one token and stays within the tokens.
pub proof fn lemma_decl_progress(toks: Seq<SpecTokenType>, pos: int)
    ensures
        spec_decl(toks, pos) matches Some((_, p)) ==> pos < p <= toks.len(),
{
    lemma_ctype_progress(toks, pos);
    if let Some((ty, p)) = spec_ctype(toks, pos) {
        lemma_dims_progress(toks, p + 1, Seq::empty());
        if let Some((ty2, q)) = spec_read_array(ty, toks, p + 1) {
            lemma_assign_progress(toks, q + 1);
        }
    }
}

/// `spec_param` consumes at least one token and stays within the tokens.
pub proof fn lemma_param_progress(toks: Seq<SpecTokenType>, pos: int)
    ensures
        spec_param(toks, pos) matches Some((_, p)) ==> pos < p <= toks.len(),
{
    lemma_ctype_progress(toks, pos);
}

/// `spec_expr_stmt` consumes at least one token and stays within the tokens.
pub proof fn lemma_expr_stmt_progress(toks: Seq<SpecTokenType>, pos: int)
    ensures
        spec_expr_stmt(toks, pos) matches Some((_, p)) ==> pos < p <= toks.len(),
{
    lemma_assign_progress(toks, pos);
}

/// `spec_stmt` consumes at least one token and stays within the tokens.
pub proof fn lemma_stmt_progress(toks: Seq<SpecTokenType>, pos: int)
    ensures
        spec_stmt(toks, pos) matches Some((_, p)) ==> pos < p <= toks.len(),
    decreases toks.len() - pos, 0int,
{
    lemma_unfold_stmt(toks, pos);
    if 0 <= pos < toks.len() {
        match toks[pos] {
            SpecTokenType::Int => {
                lemma_decl_progress(toks, pos);
            },
            SpecTokenType::If => {
                if let Some(p) = spec_expect(toks, pos + 1, SpecTokenType::LeftParen) {
                    if let Some((cond, q)) = advanced(toks, p, spec_assign(toks, p)) {
                        if let Some(r) = spec_expect(toks, q, SpecTokenType::RightParen) {
                            if let Some((then, t)) = advanced(toks, r, spec_stmt(toks, r)) {
                                if t < toks.len() && toks[t] == SpecTokenType::Else {
                                    lemma_stmt_progress(toks, t + 1);
                                }
                            }
                        }
                    }
                }
            },
            SpecTokenType::For => {
                if let Some(p) = spec_expect(toks, pos + 1, SpecTokenType::LeftParen) {
                    let init_r = if !(p < toks.len()) {
                        None
                    } else if toks[p] == SpecTokenType::Int {
                        spec_decl(toks, p)
                    } else {
                        spec_expr_stmt(toks, p)
                    };
                    if let Some((init, q)) = advanced(toks, p, init_r) {
                        if let Some((cond, r)) = advanced(toks, q, spec_assign(toks, q)) {
                            if let Some(r2) = spec_expect(toks, r, SpecTokenType::Semicolon) {
                                if let Some((inc, t)) = advanced(toks, r2, spec_assign(toks, r2)) {
                                    if let Some(t2) = spec_expect(
                                        toks,
                                        t,
                                        SpecTokenType::RightParen,
                                    ) {
                                        lemma_stmt_progress(toks, t2);
                                    }
                                }
                            }
                        }
                    }
                }
            },
            SpecTokenType::Return => {
                lemma_assign_progress(toks, pos + 1);
            },
            SpecTokenType::LeftBrace => {
                lemma_compound_stmt_progress(toks, pos + 1);
            },
            _ => {
                lemma_assign_progress(toks, pos);
            },
        }
    }
}

/// `spec_stmts` consumes at least the closing `}` and stays within the tokens.
pub proof fn lemma_stmts_progress(toks: Seq<SpecTokenType>, pos: int, stmts: Seq<SpecNode>)
    ensures
        spec_stmts(toks, pos, stmts) matches Some((_, p)) ==> pos < p <= toks.len(),
    decreases toks.len() - pos, 1int,
{
    lemma_unfold_stmts(toks, pos, stmts);
    if 0 <= pos < toks.len() && toks[pos] != SpecTokenType::RightBrace {
        if let Some((st, q)) = advanced(toks, pos, spec_stmt(toks, pos)) {
            lemma_stmts_progress(toks, q, stmts.push(st));
        }
    }
}

/// `spec_compound_stmt` consumes at least one token and stays within the tokens.
pub proof fn lemma_compound_stmt_progress(toks: Seq<SpecTokenType>, pos: int)
    ensures
        spec_compound_stmt(toks, pos) matches Some((_, p)) ==> pos < p <= toks.len(),
    decreases toks.len() - pos, 2int,
{
    lemma_unfold_compound_stmt(toks, pos);
    lemma_stmts_progress(toks, pos, Seq::empty());
}

/// `spec_params` ends at or after `pos`, within the tokens.
pub proof fn lemma_params_progress(toks: Seq<SpecTokenType>, pos: int, params: Seq<SpecNode>)
    ensures
        spec_params(toks, pos, params) matches Some((_, p)) ==> pos <= p <= toks.len(),
    decreases toks.len() - pos,
{
    if 0 <= pos < toks.len() && toks[pos] == SpecTokenType::Colon {
        if let Some((prm, q)) = advanced(toks, pos + 1, spec_param(toks, pos + 1)) {
            lemma_params_progress(toks, q, params.push(prm));
        }
    }
}

/// `spec_param_list` consumes at least the closing `)` and stays within the tokens.
pub proof fn lemma_param_list_progress(toks: Seq<SpecTokenType>, pos: int)
    ensures
        spec_param_list(toks, pos) matches Some((_, p)) ==> pos < p <= toks.len(),
{
    lemma_param_progress(toks, pos);
    if let Some((first, p)) = spec_param(toks, pos) {
        lemma_params_progress(toks, p, seq![first]);
    }
}

/// `spec_function` consumes at least one token and stays within the tokens.
pub proof fn lemma_function_progress(toks: Seq<SpecTokenType>, pos: int)
    ensures
        spec_function(toks, pos) matches Some((_, p)) ==> pos < p <= toks.len(),
{
    if let Some(p) = spec_expect(toks, pos + 2, SpecTokenType::LeftParen) {
        lemma_param_list_progress(toks, p);
        if let Some((params, q)) = spec_param_list(toks, p) {
            if let Some(r) = spec_expect(toks, q, SpecTokenType::LeftBrace) {
                lemma_compound_stmt_progress(toks, r);
            }
        }
    }
}

/// Every parsing function that succeeds at token index `pos` consumes at
/// least one token and ends within the tokens. So the `advanced` guards in the
/// definitions never drop a result.
pub proof fn lemma_parsing_consumes_tokens(toks: Seq<SpecTokenType>, pos: int)
    ensures
        spec_primary(toks, pos) matches Some((_, p)) ==> pos < p <= toks.len(),
        spec_postfix(toks, pos) matches Some((_, p)) ==> pos < p <= toks.len(),
        spec_unary(toks, pos) matches Some((_, p)) ==> pos < p <= toks.len(),
        spec_mul(toks, pos) matches Some((_, p)) ==> pos < p <= toks.len(),
        spec_add(toks, pos) matches Some((_, p)) ==> pos < p <= toks.len(),
        spec_rel(toks, pos) matches Some((_, p)) ==> pos < p <= toks.len(),
        spec_logand(toks, pos) matches Some((_, p)) ==> pos < p <= toks.len(),
        spec_logor(toks, pos) matches Some((_, p)) ==> pos < p <= toks.len(),
        spec_assign(toks, pos) matches Some((_, p)) ==> pos < p <= toks.len(),
        spec_ctype(toks, pos) matches Some((_, p)) ==> pos < p <= toks.len(),
        spec_decl(toks, pos) matches Some((_, p)) ==> pos < p <= toks.len(),
        spec_param(toks, pos) matches Some((_, p)) ==> pos < p <= toks.len(),
        spec_expr_stmt(toks, pos) matches Some((_, p)) ==> pos < p <= toks.len(),
        spec_stmt(toks, pos) matches Some((_, p)) ==> pos < p <= toks.len(),
        spec_compound_stmt(toks, pos) matches Some((_, p)) ==> pos < p <= toks.len(),
        spec_function(toks, pos) matches Some((_, p)) ==> pos < p <= toks.len(),
{
    lemma_primary_progress(toks, pos);
    lemma_postfix_progress(toks, pos);
    lemma_unary_progress(toks, pos);
    lemma_mul_progress(toks, pos);
    lemma_add_progress(toks, pos);
    lemma_rel_progress(toks, pos);
    lemma_logand_progress(toks, pos);
    lemma_logor_progress(toks, pos);
    lemma_assign_progress(toks, pos);
    lemma_ctype_progress(toks, pos);
    lemma_decl_progress(toks, pos);
    lemma_param_progress(toks, pos);
    lemma_expr_stmt_progress(toks, pos);
    lemma_stmt_progress(toks, pos);
    lemma_compound_stmt_progress(toks, pos);
    lemma_function_progress(toks, pos);
}

/// Function definitions from `pos` on, after `funcs`, are all function definitions
/// where `funcs` are.
pub proof fn lemma_functions_are_funcs(toks: Seq<SpecTokenType>, pos: int, funcs: Seq<SpecNode>)
    requires
        forall|i: int| 0 <= i < funcs.len() ==> (#[trigger] funcs[i]).op is Func,
    ensures
        spec_functions(toks, pos, funcs) matches Some(fs) ==> forall|i: int|
            0 <= i < fs.len() ==> (#[trigger] fs[i]).op is Func,
    decreases toks.len() - pos,
{
    if 0 <= pos < toks.len() {
        if let Some((f, p)) = advanced(toks, pos, spec_function(toks, pos)) {
            let next = funcs.push(f);
            assert forall|i: int| 0 <= i < next.len() implies (#[trigger] next[i]).op is Func by {
                if i < funcs.len() {
                    assert(next[i] == funcs[i]);
                }
            }
            lemma_functions_are_funcs(toks, p, next);
        }
    }
}

/// A program is a sequence of function definitions; every node `parse`
/// gives back is a function definition.
pub proof fn lemma_parse_gives_functions(toks: Seq<SpecTokenType>)
    ensures
        spec_parse(toks) matches Some(fs) ==> forall|i: int|
            0 <= i < fs.len() ==> (#[trigger] fs[i]).op is Func,
{
    lemma_functions_are_funcs(toks, 0, Seq::empty());
}

/// A syntax tree as the parser leaves it: no node carries frame data, and every
/// node but a variable definition has type `int`.
pub open spec fn fresh(n: SpecNode) -> bool
    decreases n,
{
    &&& n.stacksize == 0
    &&& n.offset == 0
    &&& (!(n.op is Vardef) ==> n.ty == Type { ty: Ctype::Int })
    &&& match n.op {
        SpecNodeType::Vardef(_, init) => match init {
            Some(e) => fresh(*e),
            None => true,
        },
        SpecNodeType::BinOp(_, l, r) => fresh(*l) && fresh(*r),
        SpecNodeType::If(c, t, e) => fresh(*c) && fresh(*t) && match e {
            Some(e) => fresh(*e),
            None => true,
        },
        SpecNodeType::For(i, c, s, b) => fresh(*i) && fresh(*c) && fresh(*s) && fresh(*b),
        SpecNodeType::Addr(e) => fresh(*e),
        SpecNodeType::Deref(e) => fresh(*e),
        SpecNodeType::Logand(l, r) => fresh(*l) && fresh(*r),
        SpecNodeType::Logor(l, r) => fresh(*l) && fresh(*r),
        SpecNodeType::Return(e) => fresh(*e),
        SpecNodeType::Sizeof(e) => fresh(*e),
        SpecNodeType::Call(_, args) => forall|i: int| 0 <= i < args.len() ==> fresh(#[trigger] args[i]),
        SpecNodeType::Func(_, params, body) => fresh(*body) && forall|i: int|
            0 <= i < params.len() ==> fresh(#[trigger] params[i]),
        SpecNodeType::ExprStmt(e) => fresh(*e),
        SpecNodeType::CompStmt(ss) => forall|i: int| 0 <= i < ss.len() ==> fresh(#[trigger] ss[i]),
        _ => true,
    }
}

/// Every tree in `s` is fresh.
pub open spec fn all_fresh(s: Seq<SpecNode>) -> bool {
    forall|i: int| 0 <= i < s.len() ==> fresh(#[trigger] s[i])
}

/// Appending a fresh tree keeps a sequence fresh.
proof fn lemma_push_fresh(s: Seq<SpecNode>, n: SpecNode)
    requires
        all_fresh(s),
        fresh(n),
    ensures
        all_fresh(s.push(n)),
{
    assert forall|i: int| 0 <= i < s.push(n).len() implies fresh(#[trigger] s.push(n)[i]) by {
        if i < s.len() {
            assert(s.push(n)[i] == s[i]);
        }
    }
}

// Every parsing function builds fresh trees.

/// `spec_primary` builds a fresh tree.
pub proof fn lemma_primary_fresh(toks: Seq<SpecTokenType>, pos: int)
    ensures
        spec_primary(toks, pos) matches Some((n, _)) ==> fresh(n),
    decreases toks.len() - pos, 1int,
{
    lemma_unfold_primary(toks, pos);
    if 0 <= pos < toks.len() {
        match toks[pos] {
            SpecTokenType::Ident(name) => {
                let p = pos + 1;
                if p + 1 < toks.len() && toks[p] == SpecTokenType::LeftParen && toks[p + 1]
                    != SpecTokenType::RightParen {
                    lemma_assign_fresh(toks, p + 1);
                    if let Some((arg, q)) = advanced(toks, p + 1, spec_assign(toks, p + 1)) {
                        lemma_push_fresh(Seq::empty(), arg);
                        assert(Seq::<SpecNode>::empty().push(arg) =~= seq![arg]);
                        lemma_call_args_fresh(toks, q, seq![arg]);
                    }
                }
            },
            SpecTokenType::LeftParen => {
                lemma_assign_fresh(toks, pos + 1);
            },
            _ => {},
        }
    }
}

/// `spec_call_args` appends fresh trees.
pub proof fn lemma_call_args_fresh(toks: Seq<SpecTokenType>, pos: int, args: Seq<SpecNode>)
    requires
        all_fresh(args),
    ensures
        spec_call_args(toks, pos, args) matches Some((r, _)) ==> all_fresh(r),
    decreases toks.len() - pos, 0int,
{
    lemma_unfold_call_args(toks, pos, args);
    if 0 <= pos < toks.len() && toks[pos] == SpecTokenType::Colon {
        lemma_assign_fresh(toks, pos + 1);
        if let Some((a, q)) = advanced(toks, pos + 1, spec_assign(toks, pos + 1)) {
            lemma_push_fresh(args, a);
            lemma_call_args_fresh(toks, q, args.push(a));
        }
    }
}

/// `spec_postfix` builds a fresh tree.
pub proof fn lemma_postfix_fresh(toks: Seq<SpecTokenType>, pos: int)
    ensures
        spec_postfix(toks, pos) matches Some((n, _)) ==> fresh(n),
    decreases toks.len() - pos, 2int,
{
    lemma_unfold_postfix(toks, pos);
    if 0 <= pos < toks.len() {
        lemma_primary_fresh(toks, pos);
        if let Some((lhs, p)) = advanced(toks, pos, spec_primary(toks, pos)) {
            lemma_postfix_rest_fresh(toks, p, lhs);
        }
    }
}

/// `spec_postfix_rest` keeps a fresh tree fresh.
pub proof fn lemma_postfix_rest_fresh(toks: Seq<SpecTokenType>, pos: int, lhs: SpecNode)
    requires
        fresh(lhs),
    ensures
        spec_postfix_rest(toks, pos, lhs) matches Some((n, _)) ==> fresh(n),
    decreases toks.len() - pos, 0int,
{
    lemma_unfold_postfix_rest(toks, pos, lhs);
    if 0 <= pos < toks.len() && toks[pos] == SpecTokenType::LeftBracket {
        lemma_primary_fresh(toks, pos + 1);
        if let Some((index, q)) = advanced(toks, pos + 1, spec_primary(toks, pos + 1)) {
            let sum = new_node(
                SpecNodeType::BinOp(SpecTokenType::Plus, Box::new(lhs), Box::new(index)),
            );
            let elem = new_node(SpecNodeType::Deref(Box::new(sum)));
            assert(fresh(sum));
            assert(fresh(elem));
            if let Some(e) = spec_expect(toks, q, SpecTokenType::RightBracket) {
                lemma_postfix_rest_fresh(toks, e, elem);
            }
        }
    }
}

/// `spec_unary` builds a fresh tree.
pub proof fn lemma_unary_fresh(toks: Seq<SpecTokenType>, pos: int)
    ensures
        spec_unary(toks, pos) matches Some((n, _)) ==> fresh(n),
    decreases toks.len() - pos, 3int,
{
    lemma_unfold_unary(toks, pos);
    if 0 <= pos < toks.len() {
        if toks[pos] == SpecTokenType::Mul || toks[pos] == SpecTokenType::And {
            lemma_mul_fresh(toks, pos + 1);
        } else if toks[pos] == SpecTokenType::Sizeof {
            lemma_unary_fresh(toks, pos + 1);
        } else {
            lemma_postfix_fresh(toks, pos);
        }
    }
}

/// `spec_mul` builds a fresh tree.
pub proof fn lemma_mul_fresh(toks: Seq<SpecTokenType>, pos: int)
    ensures
        spec_mul(toks, pos) matches Some((n, _)) ==> fresh(n),
    decreases toks.len() - pos, 4int,
{
    lemma_unfold_mul(toks, pos);
    if 0 <= pos < toks.len() {
        lemma_unary_fresh(toks, pos);
        if let Some((lhs, p)) = advanced(toks, pos, spec_unary(toks, pos)) {
            lemma_mul_rest_fresh(toks, p, lhs);
        }
    }
}

/// `spec_mul_rest` keeps a fresh tree fresh.
pub proof fn lemma_mul_rest_fresh(toks: Seq<SpecTokenType>, pos: int, lhs: SpecNode)
    requires
        fresh(lhs),
    ensures
        spec_mul_rest(toks, pos, lhs) matches Some((n, _)) ==> fresh(n),
    decreases toks.len() - pos, 0int,
{
    lemma_unfold_mul_rest(toks, pos, lhs);
    if 0 <= pos < toks.len() && (toks[pos] == SpecTokenType::Mul || toks[pos] == SpecTokenType::Div) {
        lemma_unary_fresh(toks, pos + 1);
        if let Some((rhs, q)) = advanced(toks, pos + 1, spec_unary(toks, pos + 1)) {
            let n = new_node(SpecNodeType::BinOp(toks[pos], Box::new(lhs), Box::new(rhs)));
            assert(fresh(n));
            lemma_mul_rest_fresh(toks, q, n);
        }
    }
}

/// `spec_add` builds a fresh tree.
pub proof fn lemma_add_fresh(toks: Seq<SpecTokenType>, pos: int)
    ensures
        spec_add(toks, pos) matches Some((n, _)) ==> fresh(n),
    decreases toks.len() - pos, 5int,
{
    lemma_unfold_add(toks, pos);
    if 0 <= pos < toks.len() {
        lemma_mul_fresh(toks, pos);
        if let Some((lhs, p)) = advanced(toks, pos, spec_mul(toks, pos)) {
            lemma_add_rest_fresh(toks, p, lhs);
        }
    }
}

/// `spec_add_rest` keeps a fresh tree fresh.
pub proof fn lemma_add_rest_fresh(toks: Seq<SpecTokenType>, pos: int, lhs: SpecNode)
    requires
        fresh(lhs),
    ensures
        spec_add_rest(toks, pos, lhs) matches Some((n, _)) ==> fresh(n),
    decreases toks.len() - pos, 0int,
{
    lemma_unfold_add_rest(toks, pos, lhs);
    if 0 <= pos < toks.len() && (toks[pos] == SpecTokenType::Plus || toks[pos] == SpecTokenType::Minus) {
        lemma_mul_fresh(toks, pos + 1);
        if let Some((rhs, q)) = advanced(toks, pos + 1, spec_mul(toks, pos + 1)) {
            let n = new_node(SpecNodeType::BinOp(toks[pos], Box::new(lhs), Box::new(rhs)));
            assert(fresh(n));
            lemma_add_rest_fresh(toks, q, n);
        }
    }
}

/// `spec_rel` builds a fresh tree.
pub proof fn lemma_rel_fresh(toks: Seq<SpecTokenType>, pos: int)
    ensures
        spec_rel(toks, pos) matches Some((n, _)) ==> fresh(n),
    decreases toks.len() - pos, 6int,
{
    lemma_unfold_rel(toks, pos);
    if 0 <= pos < toks.len() {
        lemma_add_fresh(toks, pos);
        if let Some((lhs, p)) = advanced(toks, pos, spec_add(toks, pos)) {
            lemma_rel_rest_fresh(toks, p, lhs);
        }
    }
}

/// `spec_rel_rest` keeps a fresh tree fresh.
pub proof fn lemma_rel_rest_fresh(toks: Seq<SpecTokenType>, pos: int, lhs: SpecNode)
    requires
        fresh(lhs),
    ensures
        spec_rel_rest(toks, pos, lhs) matches Some((n, _)) ==> fresh(n),
    decreases toks.len() - pos, 0int,
{
    lemma_unfold_rel_rest(toks, pos, lhs);
    if 0 <= pos < toks.len() {
        lemma_add_fresh(toks, pos + 1);
        if let Some((rhs, q)) = advanced(toks, pos + 1, spec_add(toks, pos + 1)) {
            let lt = new_node(
                SpecNodeType::BinOp(SpecTokenType::LeftAngleBracket, Box::new(lhs), Box::new(rhs)),
            );
            let gt = new_node(
                SpecNodeType::BinOp(SpecTokenType::LeftAngleBracket, Box::new(rhs), Box::new(lhs)),
            );
            assert(fresh(lt));
            assert(fresh(gt));
            if toks[pos] == SpecTokenType::LeftAngleBracket {
                lemma_rel_rest_fresh(toks, q, lt);
            } else if toks[pos] == SpecTokenType::RightAngleBracket {
                lemma_rel_rest_fresh(toks, q, gt);
            }
        }
    }
}

/// `spec_logand` builds a fresh tree.
pub proof fn lemma_logand_fresh(toks: Seq<SpecTokenType>, pos: int)
    ensures
        spec_logand(toks, pos) matches Some((n, _)) ==> fresh(n),
    decreases toks.len() - pos, 7int,
{
    lemma_unfold_logand(toks, pos);
    if 0 <= pos < toks.len() {
        lemma_rel_fresh(toks, pos);
        if let Some((lhs, p)) = advanced(toks, pos, spec_rel(toks, pos)) {
            lemma_logand_rest_fresh(toks, p, lhs);
        }
    }
}

/// `spec_logand_rest` keeps a fresh tree fresh.
pub proof fn lemma_logand_rest_fresh(toks: Seq<SpecTokenType>, pos: int, lhs: SpecNode)
    requires
        fresh(lhs),
    ensures
        spec_logand_rest(toks, pos, lhs) matches Some((n, _)) ==> fresh(n),
    decreases toks.len() - pos, 0int,
{
    lemma_unfold_logand_rest(toks, pos, lhs);
    if 0 <= pos < toks.len() && toks[pos] == SpecTokenType::Logand {
        lemma_rel_fresh(toks, pos + 1);
        if let Some((rhs, q)) = advanced(toks, pos + 1, spec_rel(toks, pos + 1)) {
            let n = new_node(SpecNodeType::Logand(Box::new(lhs), Box::new(rhs)));
            assert(fresh(n));
            lemma_logand_rest_fresh(toks, q, n);
        }
    }
}

/// `spec_logor` builds a fresh tree.
pub proof fn lemma_logor_fresh(toks: Seq<SpecTokenType>, pos: int)
    ensures
        spec_logor(toks, pos) matches Some((n, _)) ==> fresh(n),
    decreases toks.len() - pos, 8int,
{
    lemma_unfold_logor(toks, pos);
    if 0 <= pos < toks.len() {
        lemma_logand_fresh(toks, pos);
        if let Some((lhs, p)) = advanced(toks, pos, spec_logand(toks, pos)) {
            lemma_logor_rest_fresh(toks, p, lhs);
        }
    }
}

/// `spec_logor_rest` keeps a fresh tree fresh.
pub proof fn lemma_logor_rest_fresh(toks: Seq<SpecTokenType>, pos: int, lhs: SpecNode)
    requires
        fresh(lhs),
    ensures
        spec_logor_rest(toks, pos, lhs) matches Some((n, _)) ==> fresh(n),
    decreases toks.len() - pos, 0int,
{
    lemma_unfold_logor_rest(toks, pos, lhs);
    if 0 <= pos < toks.len() && toks[pos] == SpecTokenType::Logor {
        lemma_logand_fresh(toks, pos + 1);
        if let Some((rhs, q)) = advanced(toks, pos + 1, spec_logand(toks, pos + 1)) {
            let n = new_node(SpecNodeType::Logor(Box::new(lhs), Box::new(rhs)));
            assert(fresh(n));
            lemma_logor_rest_fresh(toks, q, n);
        }
    }
}

/// `spec_assign` builds a fresh tree.
pub proof fn lemma_assign_fresh(toks: Seq<SpecTokenType>, pos: int)
    ensures
        spec_assign(toks, pos) matches Some((n, _)) ==> fresh(n),
    decreases toks.len() - pos, 9int,
{
    lemma_unfold_assign(toks, pos);
    if 0 <= pos < toks.len() {
        lemma_logor_fresh(toks, pos);
        if let Some((lhs, p)) = advanced(toks, pos, spec_logor(toks, pos)) {
            if p < toks.len() && toks[p] == SpecTokenType::Equal {
                lemma_logor_fresh(toks, p + 1);
            }
        }
    }
}

/// `spec_decl` builds a fresh tree.
pub proof fn lemma_decl_fresh(toks: Seq<SpecTokenType>, pos: int)
    ensures
        spec_decl(toks, pos) matches Some((n, _)) ==> fresh(n),
{
    if let Some((ty, p)) = spec_ctype(toks, pos) {
        if let Some((ty2, q)) = spec_read_array(ty, toks, p + 1) {
            lemma_assign_fresh(toks, q + 1);
        }
    }
}

/// `spec_expr_stmt` builds a fresh tree.
pub proof fn lemma_expr_stmt_fresh(toks: Seq<SpecTokenType>, pos: int)
    ensures
        spec_expr_stmt(toks, pos) matches Some((n, _)) ==> fresh(n),
{
    lemma_assign_fresh(toks, pos);
}

/// `spec_stmt` builds a fresh tree.
pub proof fn lemma_stmt_fresh(toks: Seq<SpecTokenType>, pos: int)
    ensures
        spec_stmt(toks, pos) matches Some((n, _)) ==> fresh(n),
    decreases toks.len() - pos, 0int,
{
    lemma_unfold_stmt(toks, pos);
    if 0 <= pos < toks.len() {
        match toks[pos] {
            SpecTokenType::Int => {
                lemma_decl_fresh(toks, pos);
            },
            SpecTokenType::If => {
                if let Some(p) = spec_expect(toks, pos + 1, SpecTokenType::LeftParen) {
                    lemma_assign_fresh(toks, p);
                    if let Some((cond, q)) = advanced(toks, p, spec_assign(toks, p)) {
                        if let Some(r) = spec_expect(toks, q, SpecTokenType::RightParen) {
                            lemma_stmt_fresh(toks, r);
                            if let Some((then, t)) = advanced(toks, r, spec_stmt(toks, r)) {
                                if t < toks.len() && toks[t] == SpecTokenType::Else {
                                    lemma_stmt_fresh(toks, t + 1);
                                }
                            }
                        }
                    }
                }
            },
            SpecTokenType::For => {
                if let Some(p) = spec_expect(toks, pos + 1, SpecTokenType::LeftParen) {
                    lemma_decl_fresh(toks, p);
                    lemma_expr_stmt_fresh(toks, p);
                    let init_r = if !(p < toks.len()) {
                        None
                    } else if toks[p] == SpecTokenType::Int {
                        spec_decl(toks, p)
                    } else {
                        spec_expr_stmt(toks, p)
                    };
                    if let Some((init, q)) = advanced(toks, p, init_r) {
                        lemma_assign_fresh(toks, q);
                        if let Some((cond, r)) = advanced(toks, q, spec_assign(toks, q)) {
                            if let Some(r2) = spec_expect(toks, r, SpecTokenType::Semicolon) {
                                lemma_assign_fresh(toks, r2);
                                if let Some((inc, t)) = advanced(toks, r2, spec_assign(toks, r2)) {
                                    if let Some(t2) = spec_expect(
                                        toks,
                                        t,
                                        SpecTokenType::RightParen,
                                    ) {
                                        lemma_stmt_fresh(toks, t2);
                                    }
                                }
                            }
                        }
                    }
                }
            },
            SpecTokenType::Return => {
                lemma_assign_fresh(toks, pos + 1);
            },
            SpecTokenType::LeftBrace => {
                lemma_compound_stmt_fresh(toks, pos + 1);
            },
            _ => {
                lemma_assign_fresh(toks, pos);
            },
        }
    }
}

/// `spec_stmts` appends fresh trees.
pub proof fn lemma_stmts_fresh(toks: Seq<SpecTokenType>, pos: int, stmts: Seq<SpecNode>)
    requires
        all_fresh(stmts),
    ensures
        spec_stmts(toks, pos, stmts) matches Some((r, _)) ==> all_fresh(r),
    decreases toks.len() - pos, 1int,
{
    lemma_unfold_stmts(toks, pos, stmts);
    if 0 <= pos < toks.len() && toks[pos] != SpecTokenType::RightBrace {
        lemma_stmt_fresh(toks, pos);
        if let Some((st, q)) = advanced(toks, pos, spec_stmt(toks, pos)) {
            lemma_push_fresh(stmts, st);
            lemma_stmts_fresh(toks, q, stmts.push(st));
        }
    }
}

/// `spec_compound_stmt` builds a fresh tree.
pub proof fn lemma_compound_stmt_fresh(toks: Seq<SpecTokenType>, pos: int)
    ensures
        spec_compound_stmt(toks, pos) matches Some((n, _)) ==> fresh(n),
    decreases toks.len() - pos, 2int,
{
    lemma_unfold_compound_stmt(toks, pos);
    lemma_stmts_fresh(toks, pos, Seq::empty());
}

/// `spec_params` appends fresh trees.
pub proof fn lemma_params_fresh(toks: Seq<SpecTokenType>, pos: int, params: Seq<SpecNode>)
    requires
        all_fresh(params),
    ensures
        spec_params(toks, pos, params) matches Some((r, _)) ==> all_fresh(r),
    decreases toks.len() - pos,
{
    if 0 <= pos < toks.len() && toks[pos] == SpecTokenType::Colon {
        if let Some((prm, q)) = advanced(toks, pos + 1, spec_param(toks, pos + 1)) {
            lemma_push_fresh(params, prm);
            lemma_params_fresh(toks, q, params.push(prm));
        }
    }
}

/// `spec_function` builds a fresh tree.
pub proof fn lemma_function_fresh(toks: Seq<SpecTokenType>, pos: int)
    ensures
        spec_function(toks, pos) matches Some((n, _)) ==> fresh(n),
{
    if let Some(p) = spec_expect(toks, pos + 2, SpecTokenType::LeftParen) {
        if let Some((first, q)) = spec_param(toks, p) {
            lemma_push_fresh(Seq::empty(), first);
            assert(Seq::<SpecNode>::empty().push(first) =~= seq![first]);
            lemma_params_fresh(toks, q, seq![first]);
        }
        if let Some((params, q)) = spec_param_list(toks, p) {
            if let Some(r) = spec_expect(toks, q, SpecTokenType::LeftBrace) {
                lemma_compound_stmt_fresh(toks, r);
            }
        }
    }
}

/// Function definitions from `pos` on are fresh where `funcs` are.
pub proof fn lemma_functions_fresh(toks: Seq<SpecTokenType>, pos: int, funcs: Seq<SpecNode>)
    requires
        all_fresh(funcs),
    ensures
        spec_functions(toks, pos, funcs) matches Some(fs) ==> all_fresh(fs),
    decreases toks.len() - pos,
{
    if 0 <= pos < toks.len() {
        lemma_function_fresh(toks, pos);
        if let Some((f, p)) = advanced(toks, pos, spec_function(toks, pos)) {
            lemma_push_fresh(funcs, f);
            lemma_functions_fresh(toks, p, funcs.push(f));
        }
    }
}

/// The trees of a parsed program carry no frame data (every stack size and
/// offset is 0), and only variable definitions have a type other than `int`.
pub proof fn lemma_parse_fresh(toks: Seq<SpecTokenType>)
    ensures
        spec_parse(toks) matches Some(fs) ==> all_fresh(fs),
{
    lemma_functions_fresh(toks, 0, Seq::empty());
}

// Parsing reads no token before its start and none after its end: a rule that
// succeeds on `t` gives the same tree inside `pre + t + post`.

/// `r` with its end position moved by `o`.
pub open spec fn shifted<T>(r: Option<(T, int)>, o: int) -> Option<(T, int)> {
    match r {
        Some((v, p)) => Some((v, p + o)),
        None => None,
    }
}

/// Where the tokens `t` stand inside `pre + t + post`.
proof fn lemma_embed_index(pre: Seq<SpecTokenType>, t: Seq<SpecTokenType>, post: Seq<SpecTokenType>)
    ensures
        (pre + t + post).len() == pre.len() + t.len() + post.len(),
        forall|i: int| 0 <= i < t.len() ==> (pre + t + post)[pre.len() + i] == #[trigger] t[i],
{
    assert forall|i: int| 0 <= i < t.len() implies (pre + t + post)[pre.len() + i] == #[trigger] t[i] by {
        assert((pre + t)[pre.len() + i] == t[i]);
    }
}

/// `spec_primary` reads no token outside what it parses.
proof fn lemma_primary_embed(
    pre: Seq<SpecTokenType>,
    t: Seq<SpecTokenType>,
    post: Seq<SpecTokenType>,
    pos: int,
)
    ensures
        spec_primary(t, pos) is Some ==> spec_primary(pre + t + post, pre.len() + pos) == shifted(
            spec_primary(t, pos),
            pre.len() as int,
        ),
    decreases t.len() - pos, 1int,
{
    let w = pre + t + post;
    let o = pre.len() as int;
    lemma_embed_index(pre, t, post);
    lemma_unfold_primary(t, pos);
    lemma_unfold_primary(w, o + pos);
    if 0 <= pos < t.len() {
        assert(w[o + pos] == t[pos]);
        match t[pos] {
            SpecTokenType::Ident(name) => {
                let p = pos + 1;
                if p < t.len() {
                    assert(w[o + p] == t[p]);
                }
                if p + 1 < t.len() {
                    assert(w[o + p + 1] == t[p + 1]);
                }
                if p + 1 < t.len() && t[p] == SpecTokenType::LeftParen && t[p + 1]
                    != SpecTokenType::RightParen {
                    lemma_assign_embed(pre, t, post, p + 1);
                    if let Some((arg, q)) = advanced(t, p + 1, spec_assign(t, p + 1)) {
                        lemma_call_args_embed(pre, t, post, q, seq![arg]);
                        if let Some((args, r)) = spec_call_args(t, q, seq![arg]) {
                            if 0 <= r < t.len() {
                                assert(w[o + r] == t[r]);
                            }
                        }
                    }
                }
            },
            SpecTokenType::LeftParen => {
                lemma_assign_embed(pre, t, post, pos + 1);
                if let Some((n, q)) = advanced(t, pos + 1, spec_assign(t, pos + 1)) {
                    if 0 <= q < t.len() {
                        assert(w[o + q] == t[q]);
                    }
                }
            },
            _ => {},
        }
    }
}

/// `spec_call_args` reads no token outside what it parses.
proof fn lemma_call_args_embed(
    pre: Seq<SpecTokenType>,
    t: Seq<SpecTokenType>,
    post: Seq<SpecTokenType>,
    pos: int,
    args: Seq<SpecNode>,
)
    ensures
        spec_call_args(t, pos, args) is Some ==> spec_call_args(pre + t + post, pre.len() + pos, args)
            == shifted(spec_call_args(t, pos, args), pre.len() as int),
    decreases t.len() - pos, 0int,
{
    let w = pre + t + post;
    let o = pre.len() as int;
    lemma_embed_index(pre, t, post);
    lemma_unfold_call_args(t, pos, args);
    lemma_unfold_call_args(w, o + pos, args);
    if 0 <= pos < t.len() {
        assert(w[o + pos] == t[pos]);
        if t[pos] == SpecTokenType::Colon {
            lemma_assign_embed(pre, t, post, pos + 1);
            if let Some((a, q)) = advanced(t, pos + 1, spec_assign(t, pos + 1)) {
                lemma_call_args_embed(pre, t, post, q, args.push(a));
            }
        }
    }
}

/// `spec_postfix` reads no token outside what it parses.
proof fn lemma_postfix_embed(
    pre: Seq<SpecTokenType>,
    t: Seq<SpecTokenType>,
    post: Seq<SpecTokenType>,
    pos: int,
)
    ensures
        spec_postfix(t, pos) is Some ==> spec_postfix(pre + t + post, pre.len() + pos) == shifted(
            spec_postfix(t, pos),
            pre.len() as int,
        ),
    decreases t.len() - pos, 2int,
{
    let w = pre + t + post;
    let o = pre.len() as int;
    lemma_embed_index(pre, t, post);
    lemma_unfold_postfix(t, pos);
    lemma_unfold_postfix(w, o + pos);
    if 0 <= pos < t.len() {
        lemma_primary_embed(pre, t, post, pos);
        if let Some((lhs, p)) = advanced(t, pos, spec_primary(t, pos)) {
            lemma_postfix_rest_embed(pre, t, post, p, lhs);
        }
    }
}

/// `spec_postfix_rest` reads no token outside what it parses.
proof fn lemma_postfix_rest_embed(
    pre: Seq<SpecTokenType>,
    t: Seq<SpecTokenType>,
    post: Seq<SpecTokenType>,
    pos: int,
    lhs: SpecNode,
)
    ensures
        spec_postfix_rest(t, pos, lhs) is Some ==> spec_postfix_rest(
            pre + t + post,
            pre.len() + pos,
            lhs,
        ) == shifted(spec_postfix_rest(t, pos, lhs), pre.len() as int),
    decreases t.len() - pos, 0int,
{
    let w = pre + t + post;
    let o = pre.len() as int;
    lemma_embed_index(pre, t, post);
    lemma_unfold_postfix_rest(t, pos, lhs);
    lemma_unfold_postfix_rest(w, o + pos, lhs);
    if 0 <= pos < t.len() {
        assert(w[o + pos] == t[pos]);
        if t[pos] == SpecTokenType::LeftBracket {
            lemma_primary_embed(pre, t, post, pos + 1);
            if let Some((index, q)) = advanced(t, pos + 1, spec_primary(t, pos + 1)) {
                let sum = new_node(
                    SpecNodeType::BinOp(SpecTokenType::Plus, Box::new(lhs), Box::new(index)),
                );
                let elem = new_node(SpecNodeType::Deref(Box::new(sum)));
                if 0 <= q < t.len() {
                    assert(w[o + q] == t[q]);
                }
                if let Some(e) = spec_expect(t, q, SpecTokenType::RightBracket) {
                    lemma_postfix_rest_embed(pre, t, post, e, elem);
                }
            }
        }
    }
}

/// `spec_unary` reads no token outside what it parses, where it ends before the
/// end of the tokens.
proof fn lemma_unary_embed(
    pre: Seq<SpecTokenType>,
    t: Seq<SpecTokenType>,
    post: Seq<SpecTokenType>,
    pos: int,
)
    ensures
        spec_unary(t, pos) matches Some((_, p)) && p < t.len() ==> spec_unary(
            pre + t + post,
            pre.len() + pos,
        ) == shifted(spec_unary(t, pos), pre.len() as int),
    decreases t.len() - pos, 3int,
{
    let w = pre + t + post;
    let o = pre.len() as int;
    lemma_embed_index(pre, t, post);
    lemma_unfold_unary(t, pos);
    lemma_unfold_unary(w, o + pos);
    if 0 <= pos < t.len() {
        assert(w[o + pos] == t[pos]);
        if t[pos] == SpecTokenType::Mul || t[pos] == SpecTokenType::And {
            lemma_mul_embed(pre, t, post, pos + 1);
        } else if t[pos] == SpecTokenType::Sizeof {
            lemma_unary_embed(pre, t, post, pos + 1);
        } else {
            lemma_postfix_embed(pre, t, post, pos);
        }
    }
}

/// `spec_mul` reads no token outside what it parses, where it ends before the
/// end of the tokens.
proof fn lemma_mul_embed(pre: Seq<SpecTokenType>, t: Seq<SpecTokenType>, post: Seq<SpecTokenType>, pos: int)
    ensures
        spec_mul(t, pos) matches Some((_, p)) && p < t.len() ==> spec_mul(
            pre + t + post,
            pre.len() + pos,
        ) == shifted(spec_mul(t, pos), pre.len() as int),
    decreases t.len() - pos, 4int,
{
    let w = pre + t + post;
    let o = pre.len() as int;
    lemma_embed_index(pre, t, post);
    lemma_unfold_mul(t, pos);
    lemma_unfold_mul(w, o + pos);
    if 0 <= pos < t.len() {
        lemma_unary_embed(pre, t, post, pos);
        if let Some((lhs, p)) = advanced(t, pos, spec_unary(t, pos)) {
            lemma_mul_rest_progress(t, p, lhs);
            lemma_mul_rest_embed(pre, t, post, p, lhs);
        }
    }
}

/// `spec_mul_rest` reads no token outside what it parses, where it ends before
/// the end of the tokens.
proof fn lemma_mul_rest_embed(
    pre: Seq<SpecTokenType>,
    t: Seq<SpecTokenType>,
    post: Seq<SpecTokenType>,
    pos: int,
    lhs: SpecNode,
)
    ensures
        spec_mul_rest(t, pos, lhs) matches Some((_, p)) && p < t.len() ==> spec_mul_rest(
            pre + t + post,
            pre.len() + pos,
            lhs,
        ) == shifted(spec_mul_rest(t, pos, lhs), pre.len() as int),
    decreases t.len() - pos, 0int,
{
    let w = pre + t + post;
    let o = pre.len() as int;
    lemma_embed_index(pre, t, post);
    lemma_unfold_mul_rest(t, pos, lhs);
    lemma_unfold_mul_rest(w, o + pos, lhs);
    lemma_mul_rest_progress(t, pos, lhs);
    if 0 <= pos < t.len() {
        assert(w[o + pos] == t[pos]);
        if t[pos] == SpecTokenType::Mul || t[pos] == SpecTokenType::Div {
            lemma_unary_embed(pre, t, post, pos + 1);
            if let Some((rhs, q)) = advanced(t, pos + 1, spec_unary(t, pos + 1)) {
                let n = new_node(SpecNodeType::BinOp(t[pos], Box::new(lhs), Box::new(rhs)));
                lemma_mul_rest_progress(t, q, n);
                lemma_mul_rest_embed(pre, t, post, q, n);
            }
        }
    }
}

/// `spec_add` reads no token outside what it parses, where it ends before the
/// end of the tokens.
proof fn lemma_add_embed(pre: Seq<SpecTokenType>, t: Seq<SpecTokenType>, post: Seq<SpecTokenType>, pos: int)
    ensures
        spec_add(t, pos) matches Some((_, p)) && p < t.len() ==> spec_add(
            pre + t + post,
            pre.len() + pos,
        ) == shifted(spec_add(t, pos), pre.len() as int),
    decreases t.len() - pos, 5int,
{
    let w = pre + t + post;
    let o = pre.len() as int;
    lemma_embed_index(pre, t, post);
    lemma_unfold_add(t, pos);
    lemma_unfold_add(w, o + pos);
    if 0 <= pos < t.len() {
        lemma_mul_embed(pre, t, post, pos);
        if let Some((lhs, p)) = advanced(t, pos, spec_mul(t, pos)) {
            lemma_add_rest_progress(t, p, lhs);
            lemma_add_rest_embed(pre, t, post, p, lhs);
        }
    }
}

/// `spec_add_rest` reads no token outside what it parses, where it ends before
/// the end of the tokens.
proof fn lemma_add_rest_embed(
    pre: Seq<SpecTokenType>,
    t: Seq<SpecTokenType>,
    post: Seq<SpecTokenType>,
    pos: int,
    lhs: SpecNode,
)
    ensures
        spec_add_rest(t, pos, lhs) matches Some((_, p)) && p < t.len() ==> spec_add_rest(
            pre + t + post,
            pre.len() + pos,
            lhs,
        ) == shifted(spec_add_rest(t, pos, lhs), pre.len() as int),
    decreases t.len() - pos, 0int,
{
    let w = pre + t + post;
    let o = pre.len() as int;
    lemma_embed_index(pre, t, post);
    lemma_unfold_add_rest(t, pos, lhs);
    lemma_unfold_add_rest(w, o + pos, lhs);
    lemma_add_rest_progress(t, pos, lhs);
    if 0 <= pos < t.len() {
        assert(w[o + pos] == t[pos]);
        if t[pos] == SpecTokenType::Plus || t[pos] == SpecTokenType::Minus {
            lemma_mul_embed(pre, t, post, pos + 1);
            if let Some((rhs, q)) = advanced(t, pos + 1, spec_mul(t, pos + 1)) {
                let n = new_node(SpecNodeType::BinOp(t[pos], Box::new(lhs), Box::new(rhs)));
                lemma_add_rest_progress(t, q, n);
                lemma_add_rest_embed(pre, t, post, q, n);
            }
        }
    }
}

/// `spec_rel` reads no token outside what it parses.
proof fn lemma_rel_embed(pre: Seq<SpecTokenType>, t: Seq<SpecTokenType>, post: Seq<SpecTokenType>, pos: int)
    ensures
        spec_rel(t, pos) is Some ==> spec_rel(pre + t + post, pre.len() + pos) == shifted(
            spec_rel(t, pos),
            pre.len() as int,
        ),
    decreases t.len() - pos, 6int,
{
    let w = pre + t + post;
    let o = pre.len() as int;
    lemma_embed_index(pre, t, post);
    lemma_unfold_rel(t, pos);
    lemma_unfold_rel(w, o + pos);
    if 0 <= pos < t.len() {
        lemma_add_embed(pre, t, post, pos);
        if let Some((lhs, p)) = advanced(t, pos, spec_add(t, pos)) {
            lemma_unfold_rel_rest(t, p, lhs);
            lemma_rel_rest_embed(pre, t, post, p, lhs);
        }
    }
}

/// `spec_rel_rest` reads no token outside what it parses.
proof fn lemma_rel_rest_embed(
    pre: Seq<SpecTokenType>,
    t: Seq<SpecTokenType>,
    post: Seq<SpecTokenType>,
    pos: int,
    lhs: SpecNode,
)
    ensures
        spec_rel_rest(t, pos, lhs) is Some ==> spec_rel_rest(pre + t + post, pre.len() + pos, lhs)
            == shifted(spec_rel_rest(t, pos, lhs), pre.len() as int),
    decreases t.len() - pos, 0int,
{
    let w = pre + t + post;
    let o = pre.len() as int;
    lemma_embed_index(pre, t, post);
    lemma_unfold_rel_rest(t, pos, lhs);
    lemma_unfold_rel_rest(w, o + pos, lhs);
    if 0 <= pos < t.len() {
        assert(w[o + pos] == t[pos]);
        lemma_add_embed(pre, t, post, pos + 1);
        if let Some((rhs, q)) = advanced(t, pos + 1, spec_add(t, pos + 1)) {
            let lt = new_node(
                SpecNodeType::BinOp(SpecTokenType::LeftAngleBracket, Box::new(lhs), Box::new(rhs)),
            );
            let gt = new_node(
                SpecNodeType::BinOp(SpecTokenType::LeftAngleBracket, Box::new(rhs), Box::new(lhs)),
            );
            lemma_unfold_rel_rest(t, q, lt);
            lemma_unfold_rel_rest(t, q, gt);
            if t[pos] == SpecTokenType::LeftAngleBracket {
                lemma_rel_rest_embed(pre, t, post, q, lt);
            } else if t[pos] == SpecTokenType::RightAngleBracket {
                lemma_rel_rest_embed(pre, t, post, q, gt);
            }
        }
    }
}

/// `spec_logand` reads no token outside what it parses.
proof fn lemma_logand_embed(
    pre: Seq<SpecTokenType>,
    t: Seq<SpecTokenType>,
    post: Seq<SpecTokenType>,
    pos: int,
)
    ensures
        spec_logand(t, pos) is Some ==> spec_logand(pre + t + post, pre.len() + pos) == shifted(
            spec_logand(t, pos),
            pre.len() as int,
        ),
    decreases t.len() - pos, 7int,
{
    let w = pre + t + post;
    let o = pre.len() as int;
    lemma_embed_index(pre, t, post);
    lemma_unfold_logand(t, pos);
    lemma_unfold_logand(w, o + pos);
    if 0 <= pos < t.len() {
        lemma_rel_embed(pre, t, post, pos);
        if let Some((lhs, p)) = advanced(t, pos, spec_rel(t, pos)) {
            lemma_logand_rest_embed(pre, t, post, p, lhs);
        }
    }
}

/// `spec_logand_rest` reads no token outside what it parses.
proof fn lemma_logand_rest_embed(
    pre: Seq<SpecTokenType>,
    t: Seq<SpecTokenType>,
    post: Seq<SpecTokenType>,
    pos: int,
    lhs: SpecNode,
)
    ensures
        spec_logand_rest(t, pos, lhs) is Some ==> spec_logand_rest(
            pre + t + post,
            pre.len() + pos,
            lhs,
        ) == shifted(spec_logand_rest(t, pos, lhs), pre.len() as int),
    decreases t.len() - pos, 0int,
{
    let w = pre + t + post;
    let o = pre.len() as int;
    lemma_embed_index(pre, t, post);
    lemma_unfold_logand_rest(t, pos, lhs);
    lemma_unfold_logand_rest(w, o + pos, lhs);
    if 0 <= pos < t.len() {
        assert(w[o + pos] == t[pos]);
        if t[pos] == SpecTokenType::Logand {
            lemma_rel_embed(pre, t, post, pos + 1);
            if let Some((rhs, q)) = advanced(t, pos + 1, spec_rel(t, pos + 1)) {
                let n = new_node(SpecNodeType::Logand(Box::new(lhs), Box::new(rhs)));
                lemma_logand_rest_embed(pre, t, post, q, n);
            }
        }
    }
}

/// `spec_logor` reads no token outside what it parses.
proof fn lemma_logor_embed(
    pre: Seq<SpecTokenType>,
    t: Seq<SpecTokenType>,
    post: Seq<SpecTokenType>,
    pos: int,
)
    ensures
        spec_logor(t, pos) is Some ==> spec_logor(pre + t + post, pre.len() + pos) == shifted(
            spec_logor(t, pos),
            pre.len() as int,
        ),
    decreases t.len() - pos, 8int,
{
    let w = pre + t + post;
    let o = pre.len() as int;
    lemma_embed_index(pre, t, post);
    lemma_unfold_logor(t, pos);
    lemma_unfold_logor(w, o + pos);
    if 0 <= pos < t.len() {
        lemma_logand_embed(pre, t, post, pos);
        if let Some((lhs, p)) = advanced(t, pos, spec_logand(t, pos)) {
            lemma_logor_rest_embed(pre, t, post, p, lhs);
        }
    }
}

/// `spec_logor_rest` reads no token outside what it parses.
proof fn lemma_logor_rest_embed(
    pre: Seq<SpecTokenType>,
    t: Seq<SpecTokenType>,
    post: Seq<SpecTokenType>,
    pos: int,
    lhs: SpecNode,
)
    ensures
        spec_logor_rest(t, pos, lhs) is Some ==> spec_logor_rest(
            pre + t + post,
            pre.len() + pos,
            lhs,
        ) == shifted(spec_logor_rest(t, pos, lhs), pre.len() as int),
    decreases t.len() - pos, 0int,
{
    let w = pre + t + post;
    let o = pre.len() as int;
    lemma_embed_index(pre, t, post);
    lemma_unfold_logor_rest(t, pos, lhs);
    lemma_unfold_logor_rest(w, o + pos, lhs);
    if 0 <= pos < t.len() {
        assert(w[o + pos] == t[pos]);
        if t[pos] == SpecTokenType::Logor {
            lemma_logand_embed(pre, t, post, pos + 1);
            if let Some((rhs, q)) = advanced(t, pos + 1, spec_logand(t, pos + 1)) {
                let n = new_node(SpecNodeType::Logor(Box::new(lhs), Box::new(rhs)));
                lemma_logor_rest_embed(pre, t, post, q, n);
            }
        }
    }
}

/// `spec_assign` reads no token outside what it parses.
proof fn lemma_assign_embed(
    pre: Seq<SpecTokenType>,
    t: Seq<SpecTokenType>,
    post: Seq<SpecTokenType>,
    pos: int,
)
    ensures
        spec_assign(t, pos) is Some ==> spec_assign(pre + t + post, pre.len() + pos) == shifted(
            spec_assign(t, pos),
            pre.len() as int,
        ),
    decreases t.len() - pos, 9int,
{
    let w = pre + t + post;
    let o = pre.len() as int;
    lemma_embed_index(pre, t, post);
    lemma_unfold_assign(t, pos);
    lemma_unfold_assign(w, o + pos);
    if 0 <= pos < t.len() {
        lemma_logor_embed(pre, t, post, pos);
        if let Some((lhs, p)) = advanced(t, pos, spec_logor(t, pos)) {
            if p < t.len() {
                assert(w[o + p] == t[p]);
                if t[p] == SpecTokenType::Equal {
                    lemma_logor_embed(pre, t, post, p + 1);
                }
            }
        }
    }
}


/// `spec_pointers` reads no token outside what it parses.
proof fn lemma_pointers_embed(
    pre: Seq<SpecTokenType>,
    t: Seq<SpecTokenType>,
    post: Seq<SpecTokenType>,
    pos: int,
    ty: Ctype,
)
    ensures
        spec_pointers(t, pos, ty) is Some ==> spec_pointers(pre + t + post, pre.len() + pos, ty)
            == shifted(spec_pointers(t, pos, ty), pre.len() as int),
    decreases t.len() - pos,
{
    let w = pre + t + post;
    let o = pre.len() as int;
    lemma_embed_index(pre, t, post);
    if 0 <= pos < t.len() {
        assert(w[o + pos] == t[pos]);
        if t[pos] == SpecTokenType::Mul {
            lemma_pointers_embed(pre, t, post, pos + 1, Ctype::Ptr(Box::new(Type { ty })));
        }
    }
}

/// `spec_ctype` reads no token outside what it parses.
proof fn lemma_ctype_embed(
    pre: Seq<SpecTokenType>,
    t: Seq<SpecTokenType>,
    post: Seq<SpecTokenType>,
    pos: int,
)
    ensures
        spec_ctype(t, pos) is Some ==> spec_ctype(pre + t + post, pre.len() + pos) == shifted(
            spec_ctype(t, pos),
            pre.len() as int,
        ),
{
    let w = pre + t + post;
    let o = pre.len() as int;
    lemma_embed_index(pre, t, post);
    if 0 <= pos < t.len() {
        assert(w[o + pos] == t[pos]);
        lemma_pointers_embed(pre, t, post, pos + 1, Ctype::Int);
    }
}

/// `spec_dims` reads no token outside what it parses.
proof fn lemma_dims_embed(
    pre: Seq<SpecTokenType>,
    t: Seq<SpecTokenType>,
    post: Seq<SpecTokenType>,
    pos: int,
    dims: Seq<usize>,
)
    ensures
        spec_dims(t, pos, dims) is Some ==> spec_dims(pre + t + post, pre.len() + pos, dims)
            == shifted(spec_dims(t, pos, dims), pre.len() as int),
    decreases t.len() - pos,
{
    let w = pre + t + post;
    let o = pre.len() as int;
    lemma_embed_index(pre, t, post);
    if 0 <= pos < t.len() {
        assert(w[o + pos] == t[pos]);
        if t[pos] == SpecTokenType::LeftBracket {
            lemma_primary_embed(pre, t, post, pos + 1);
            if let Some((len, q)) = advanced(t, pos + 1, spec_primary(t, pos + 1)) {
                if 0 <= q < t.len() {
                    assert(w[o + q] == t[q]);
                }
                if let SpecNodeType::Num(n) = len.op {
                    if let Some(e) = spec_expect(t, q, SpecTokenType::RightBracket) {
                        lemma_dims_embed(pre, t, post, e, dims.push(n as usize));
                    }
                }
            }
        }
    }
}

/// `spec_decl` reads no token outside what it parses.
proof fn lemma_decl_embed(pre: Seq<SpecTokenType>, t: Seq<SpecTokenType>, post: Seq<SpecTokenType>, pos: int)
    ensures
        spec_decl(t, pos) is Some ==> spec_decl(pre + t + post, pre.len() + pos) == shifted(
            spec_decl(t, pos),
            pre.len() as int,
        ),
{
    let w = pre + t + post;
    let o = pre.len() as int;
    lemma_embed_index(pre, t, post);
    lemma_ctype_embed(pre, t, post, pos);
    lemma_ctype_progress(t, pos);
    if let Some((ty, p)) = spec_ctype(t, pos) {
        if 0 <= p < t.len() {
            assert(w[o + p] == t[p]);
            lemma_dims_embed(pre, t, post, p + 1, Seq::empty());
            lemma_dims_progress(t, p + 1, Seq::empty());
            if let Some((ty2, q)) = spec_read_array(ty, t, p + 1) {
                if 0 <= q < t.len() {
                    assert(w[o + q] == t[q]);
                    lemma_assign_embed(pre, t, post, q + 1);
                    if let Some((init, r)) = spec_assign(t, q + 1) {
                        if 0 <= r < t.len() {
                            assert(w[o + r] == t[r]);
                        }
                    }
                }
            }
        }
    }
}

/// `spec_param` reads no token outside what it parses.
proof fn lemma_param_embed(
    pre: Seq<SpecTokenType>,
    t: Seq<SpecTokenType>,
    post: Seq<SpecTokenType>,
    pos: int,
)
    ensures
        spec_param(t, pos) is Some ==> spec_param(pre + t + post, pre.len() + pos) == shifted(
            spec_param(t, pos),
            pre.len() as int,
        ),
{
    let w = pre + t + post;
    let o = pre.len() as int;
    lemma_embed_index(pre, t, post);
    lemma_ctype_embed(pre, t, post, pos);
    lemma_ctype_progress(t, pos);
    if let Some((ty, p)) = spec_ctype(t, pos) {
        if 0 <= p < t.len() {
            assert(w[o + p] == t[p]);

        }
    }
}

/// `spec_expr_stmt` reads no token outside what it parses.
proof fn lemma_expr_stmt_embed(
    pre: Seq<SpecTokenType>,
    t: Seq<SpecTokenType>,
    post: Seq<SpecTokenType>,
    pos: int,
)
    ensures
        spec_expr_stmt(t, pos) is Some ==> spec_expr_stmt(pre + t + post, pre.len() + pos)
            == shifted(spec_expr_stmt(t, pos), pre.len() as int),
{
    let w = pre + t + post;
    let o = pre.len() as int;
    lemma_embed_index(pre, t, post);
    lemma_assign_embed(pre, t, post, pos);
    if let Some((e, p)) = spec_assign(t, pos) {
        if 0 <= p < t.len() {
            assert(w[o + p] == t[p]);
        }
    }
}

/// `spec_stmt` reads no token outside what it parses.
proof fn lemma_stmt_embed(pre: Seq<SpecTokenType>, t: Seq<SpecTokenType>, post: Seq<SpecTokenType>, pos: int)
    ensures
        spec_stmt(t, pos) is Some ==> spec_stmt(pre + t + post, pre.len() + pos) == shifted(
            spec_stmt(t, pos),
            pre.len() as int,
        ),
    decreases t.len() - pos, 1int,
{
    if 0 <= pos < t.len() {
        match t[pos] {
            SpecTokenType::If => {
                lemma_if_embed(pre, t, post, pos);
            },
            SpecTokenType::For => {
                lemma_for_embed(pre, t, post, pos);
            },
            _ => {
                lemma_simple_stmt_embed(pre, t, post, pos);
            },
        }
    } else {
        lemma_unfold_stmt(t, pos);
    }
}

/// An `if` statement reads no token outside what it parses.
proof fn lemma_if_embed(pre: Seq<SpecTokenType>, t: Seq<SpecTokenType>, post: Seq<SpecTokenType>, pos: int)
    requires
        0 <= pos < t.len(),
        t[pos] == SpecTokenType::If,
    ensures
        spec_stmt(t, pos) is Some ==> spec_stmt(pre + t + post, pre.len() + pos) == shifted(
            spec_stmt(t, pos),
            pre.len() as int,
        ),
    decreases t.len() - pos, 0int,
{
    let w = pre + t + post;
    let o = pre.len() as int;
    lemma_embed_index(pre, t, post);
    lemma_unfold_stmt(t, pos);
    lemma_unfold_stmt(w, o + pos);
    assert(w[o + pos] == t[pos]);
    if pos + 1 < t.len() {
        assert(w[o + pos + 1] == t[pos + 1]);
    }
    if let Some(p) = spec_expect(t, pos + 1, SpecTokenType::LeftParen) {
        lemma_assign_embed(pre, t, post, p);
        if let Some((cond, q)) = advanced(t, p, spec_assign(t, p)) {
            if 0 <= q < t.len() {
                assert(w[o + q] == t[q]);
            }
            if let Some(r) = spec_expect(t, q, SpecTokenType::RightParen) {
                lemma_stmt_embed(pre, t, post, r);
                if let Some((then, u)) = advanced(t, r, spec_stmt(t, r)) {
                    if 0 <= u < t.len() {
                        assert(w[o + u] == t[u]);
                        if t[u] == SpecTokenType::Else {
                            lemma_stmt_embed(pre, t, post, u + 1);
                        }
                    }
                }
            }
        }
    }
}

/// A `for` statement reads no token outside what it parses.
proof fn lemma_for_embed(pre: Seq<SpecTokenType>, t: Seq<SpecTokenType>, post: Seq<SpecTokenType>, pos: int)
    requires
        0 <= pos < t.len(),
        t[pos] == SpecTokenType::For,
    ensures
        spec_stmt(t, pos) is Some ==> spec_stmt(pre + t + post, pre.len() + pos) == shifted(
            spec_stmt(t, pos),
            pre.len() as int,
        ),
    decreases t.len() - pos, 0int,
{
    let w = pre + t + post;
    let o = pre.len() as int;
    lemma_embed_index(pre, t, post);
    lemma_unfold_stmt(t, pos);
    lemma_unfold_stmt(w, o + pos);
    assert(w[o + pos] == t[pos]);
    if pos + 1 < t.len() {
        assert(w[o + pos + 1] == t[pos + 1]);
    }
    if let Some(p) = spec_expect(t, pos + 1, SpecTokenType::LeftParen) {
        if 0 <= p < t.len() {
            assert(w[o + p] == t[p]);
        }
        lemma_decl_embed(pre, t, post, p);
        lemma_expr_stmt_embed(pre, t, post, p);
        let init_r = if !(p < t.len()) {
            None
        } else if t[p] == SpecTokenType::Int {
            spec_decl(t, p)
        } else {
            spec_expr_stmt(t, p)
        };
        if let Some((init, q)) = advanced(t, p, init_r) {
            lemma_assign_embed(pre, t, post, q);
            if let Some((cond, r)) = advanced(t, q, spec_assign(t, q)) {
                if 0 <= r < t.len() {
                    assert(w[o + r] == t[r]);
                }
                if let Some(r2) = spec_expect(t, r, SpecTokenType::Semicolon) {
                    lemma_assign_embed(pre, t, post, r2);
                    if let Some((inc, u)) = advanced(t, r2, spec_assign(t, r2)) {
                        if 0 <= u < t.len() {
                            assert(w[o + u] == t[u]);
                        }
                        if let Some(u2) = spec_expect(
                            t,
                            u,
                            SpecTokenType::RightParen,
                        ) {
                            lemma_stmt_embed(pre, t, post, u2);
                        }
                    }
                }
            }
        }
    }
}

/// A statement other than `if` and `for` reads no token outside what it parses.
proof fn lemma_simple_stmt_embed(pre: Seq<SpecTokenType>, t: Seq<SpecTokenType>, post: Seq<SpecTokenType>, pos: int)
    requires
        0 <= pos < t.len(),
        t[pos] != SpecTokenType::If,
        t[pos] != SpecTokenType::For,
    ensures
        spec_stmt(t, pos) is Some ==> spec_stmt(pre + t + post, pre.len() + pos) == shifted(
            spec_stmt(t, pos),
            pre.len() as int,
        ),
    decreases t.len() - pos, 0int,
{
    let w = pre + t + post;
    let o = pre.len() as int;
    lemma_embed_index(pre, t, post);
    lemma_unfold_stmt(t, pos);
    lemma_unfold_stmt(w, o + pos);
    assert(w[o + pos] == t[pos]);
    if pos + 1 < t.len() {
        assert(w[o + pos + 1] == t[pos + 1]);
    }
    match t[pos] {
        SpecTokenType::Int => {
            lemma_decl_embed(pre, t, post, pos);
        },
        SpecTokenType::Return => {
            lemma_assign_embed(pre, t, post, pos + 1);
            if let Some((e, p)) = spec_assign(t, pos + 1) {
                if 0 <= p < t.len() {
                    assert(w[o + p] == t[p]);
                }
            }
        },
        SpecTokenType::LeftBrace => {
            lemma_compound_stmt_embed(pre, t, post, pos + 1);
        },
        _ => {
            lemma_assign_embed(pre, t, post, pos);
            if let Some((e, p)) = spec_assign(t, pos) {
                if 0 <= p < t.len() {
                    assert(w[o + p] == t[p]);
                }
            }
        },
    }
}

/// `spec_stmts` reads no token outside what it parses.
proof fn lemma_stmts_embed(
    pre: Seq<SpecTokenType>,
    t: Seq<SpecTokenType>,
    post: Seq<SpecTokenType>,
    pos: int,
    stmts: Seq<SpecNode>,
)
    ensures
        spec_stmts(t, pos, stmts) is Some ==> spec_stmts(pre + t + post, pre.len() + pos, stmts)
            == shifted(spec_stmts(t, pos, stmts), pre.len() as int),
    decreases t.len() - pos, 2int,
{
    let w = pre + t + post;
    let o = pre.len() as int;
    lemma_embed_index(pre, t, post);
    lemma_unfold_stmts(t, pos, stmts);
    lemma_unfold_stmts(w, o + pos, stmts);
    if 0 <= pos < t.len() {
        assert(w[o + pos] == t[pos]);
        if t[pos] != SpecTokenType::RightBrace {
            lemma_stmt_embed(pre, t, post, pos);
            if let Some((st, q)) = advanced(t, pos, spec_stmt(t, pos)) {
                lemma_stmts_embed(pre, t, post, q, stmts.push(st));
            }
        }
    }
}

/// `spec_compound_stmt` reads no token outside what it parses.
proof fn lemma_compound_stmt_embed(
    pre: Seq<SpecTokenType>,
    t: Seq<SpecTokenType>,
    post: Seq<SpecTokenType>,
    pos: int,
)
    ensures
        spec_compound_stmt(t, pos) is Some ==> spec_compound_stmt(pre + t + post, pre.len() + pos)
            == shifted(spec_compound_stmt(t, pos), pre.len() as int),
    decreases t.len() - pos, 3int,
{
    lemma_unfold_compound_stmt(t, pos);
    lemma_unfold_compound_stmt(pre + t + post, pre.len() + pos);
    lemma_stmts_embed(pre, t, post, pos, Seq::empty());
}

/// `spec_params` reads no token outside what it parses.
proof fn lemma_params_embed(
    pre: Seq<SpecTokenType>,
    t: Seq<SpecTokenType>,
    post: Seq<SpecTokenType>,
    pos: int,
    params: Seq<SpecNode>,
)
    ensures
        spec_params(t, pos, params) is Some ==> spec_params(pre + t + post, pre.len() + pos, params)
            == shifted(spec_params(t, pos, params), pre.len() as int),
    decreases t.len() - pos,
{
    let w = pre + t + post;
    let o = pre.len() as int;
    lemma_embed_index(pre, t, post);
    if 0 <= pos < t.len() {
        assert(w[o + pos] == t[pos]);
        if t[pos] == SpecTokenType::Colon {
            lemma_param_embed(pre, t, post, pos + 1);
            if let Some((prm, q)) = advanced(t, pos + 1, spec_param(t, pos + 1)) {
                lemma_params_embed(pre, t, post, q, params.push(prm));
            }
        }
    }
}

/// `spec_function` reads no token outside what it parses.
proof fn lemma_function_embed(
    pre: Seq<SpecTokenType>,
    t: Seq<SpecTokenType>,
    post: Seq<SpecTokenType>,
    pos: int,
)
    ensures
        spec_function(t, pos) is Some ==> spec_function(pre + t + post, pre.len() + pos) == shifted(
            spec_function(t, pos),
            pre.len() as int,
        ),
{
    let w = pre + t + post;
    let o = pre.len() as int;
    lemma_embed_index(pre, t, post);
    if 0 <= pos && pos + 2 < t.len() {
        assert(w[o + pos] == t[pos]);
        assert(w[o + pos + 1] == t[pos + 1]);
        assert(w[o + pos + 2] == t[pos + 2]);
    }
    if let Some(p) = spec_expect(t, pos + 2, SpecTokenType::LeftParen) {
        if 0 <= p < t.len() {
            assert(w[o + p] == t[p]);
        }
        lemma_param_embed(pre, t, post, p);
        if let Some((first, q)) = spec_param(t, p) {
            lemma_params_embed(pre, t, post, q, seq![first]);
            if let Some((params, r)) = spec_params(t, q, seq![first]) {
                if 0 <= r < t.len() {
                    assert(w[o + r] == t[r]);
                }
            }
        }
        if let Some((params, q)) = spec_param_list(t, p) {
            if 0 <= q < t.len() {
                assert(w[o + q] == t[q]);
            }
            if let Some(r) = spec_expect(t, q, SpecTokenType::LeftBrace) {
                lemma_compound_stmt_embed(pre, t, post, r);
            }
        }
    }
}


/// Definitions already collected stay in front of those parsed after them.
proof fn lemma_functions_acc(
    toks: Seq<SpecTokenType>,
    pos: int,
    a: Seq<SpecNode>,
    funcs: Seq<SpecNode>,
)
    ensures
        spec_functions(toks, pos, funcs) matches Some(fs) ==> spec_functions(toks, pos, a + funcs)
            == Some(a + fs),
    decreases toks.len() - pos,
{
    if 0 <= pos < toks.len() {
        if let Some((f, p)) = advanced(toks, pos, spec_function(toks, pos)) {
            assert((a + funcs).push(f) =~= a + funcs.push(f));
            lemma_functions_acc(toks, p, a, funcs.push(f));
        }
    }
}

/// The definitions of `t1` are parsed the same way at the front of `t1 + t2`.
proof fn lemma_functions_frame(
    t1: Seq<SpecTokenType>,
    t2: Seq<SpecTokenType>,
    pos: int,
    funcs: Seq<SpecNode>,
)
    ensures
        spec_functions(t1, pos, funcs) matches Some(fs) ==> spec_functions(t1 + t2, pos, funcs)
            == spec_functions(t1 + t2, t1.len() as int, fs),
    decreases t1.len() - pos,
{
    if 0 <= pos < t1.len() {
        lemma_function_embed(Seq::empty(), t1, t2, pos);
        assert(Seq::<SpecTokenType>::empty() + t1 + t2 =~= t1 + t2);
        if let Some((f, p)) = advanced(t1, pos, spec_function(t1, pos)) {
            lemma_functions_frame(t1, t2, p, funcs.push(f));
        }
    }
}

/// The definitions of `t2` are parsed the same way at the back of `t1 + t2`.
proof fn lemma_functions_shift(
    t1: Seq<SpecTokenType>,
    t2: Seq<SpecTokenType>,
    pos: int,
    funcs: Seq<SpecNode>,
)
    requires
        0 <= pos,
    ensures
        spec_functions(t2, pos, funcs) matches Some(fs) ==> spec_functions(
            t1 + t2,
            t1.len() + pos,
            funcs,
        ) == Some(fs),
    decreases t2.len() - pos,
{
    if 0 <= pos < t2.len() {
        lemma_function_embed(t1, t2, Seq::empty(), pos);
        assert(t1 + t2 + Seq::<SpecTokenType>::empty() =~= t1 + t2);
        if let Some((f, p)) = advanced(t2, pos, spec_function(t2, pos)) {
            lemma_functions_shift(t1, t2, p, funcs.push(f));
        }
    }
}

/// Parsing two token sequences joined gives the definitions of the first
/// followed by those of the second: a definition is parsed without reading any
/// token past its closing `}`.
pub proof fn lemma_parse_join(t1: Seq<SpecTokenType>, t2: Seq<SpecTokenType>)
    requires
        spec_parse(t1) is Some,
        spec_parse(t2) is Some,
    ensures
        spec_parse(t1 + t2) == Some(spec_parse(t1).unwrap() + spec_parse(t2).unwrap()),
{
    let fs1 = spec_parse(t1).unwrap();
    lemma_functions_frame(t1, t2, 0, Seq::empty());
    lemma_functions_shift(t1, t2, 0, Seq::empty());
    lemma_functions_acc(t1 + t2, t1.len() as int, fs1, Seq::empty());
    assert(fs1 + Seq::<SpecNode>::empty() =~= fs1);
}

} // verus!

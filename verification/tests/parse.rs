use lib::parse::{parse, try_parse, Ctype, Node, NodeType, Type};
use lib::token::{tokenize, try_tokenize, Token, TokenType};

fn op_name(t: &TokenType) -> &'static str {
    match t {
        TokenType::Plus => "+",
        TokenType::Minus => "-",
        TokenType::Mul => "*",
        TokenType::Div => "/",
        TokenType::LeftAngleBracket => "<",
        TokenType::Equal => "=",
        _ => "?",
    }
}

fn type_str(t: &Type) -> String {
    match &t.ty {
        Ctype::Int => "int".to_string(),
        Ctype::Ptr(inner) => format!("ptr({})", type_str(inner)),
        Ctype::Ary(inner, n) => format!("ary({},{})", type_str(inner), n),
    }
}

fn list(nodes: &[Node]) -> String {
    nodes.iter().map(sexp).collect::<Vec<_>>().join(" ")
}

fn sexp(n: &Node) -> String {
    match &n.op {
        NodeType::Num(v) => v.to_string(),
        NodeType::Ident(s) => s.clone(),
        NodeType::Vardef(s, init) => match init {
            Some(e) => format!("(var {} {} {})", type_str(&n.ty), s, sexp(e)),
            None => format!("(var {} {})", type_str(&n.ty), s),
        },
        NodeType::Lvar => "lvar".to_string(),
        NodeType::BinOp(op, l, r) => format!("({} {} {})", op_name(op), sexp(l), sexp(r)),
        NodeType::If(c, t, e) => match e {
            Some(e) => format!("(if {} {} {})", sexp(c), sexp(t), sexp(e)),
            None => format!("(if {} {})", sexp(c), sexp(t)),
        },
        NodeType::For(i, c, s, b) => {
            format!("(for {} {} {} {})", sexp(i), sexp(c), sexp(s), sexp(b))
        }
        NodeType::Addr(e) => format!("(addr {})", sexp(e)),
        NodeType::Deref(e) => format!("(deref {})", sexp(e)),
        NodeType::Logand(l, r) => format!("(&& {} {})", sexp(l), sexp(r)),
        NodeType::Logor(l, r) => format!("(|| {} {})", sexp(l), sexp(r)),
        NodeType::Return(e) => format!("(return {})", sexp(e)),
        NodeType::Sizeof(e) => format!("(sizeof {})", sexp(e)),
        NodeType::Call(name, args) => format!("(call {} [{}])", name, list(args)),
        NodeType::Func(name, params, body) => {
            format!("(func {} [{}] {})", name, list(params), sexp(body))
        }
        NodeType::ExprStmt(e) => format!("(expr {})", sexp(e)),
        NodeType::CompStmt(ss) => format!("{{{}}}", list(ss)),
    }
}

fn program(src: &str) -> String {
    let tokens = tokenize(src.to_string());
    list(&parse(&tokens))
}

fn refused(src: &str) -> bool {
    let tokens = tokenize(src.to_string());
    try_parse(&tokens).is_none()
}

fn tok(ty: TokenType) -> Token {
    Token { ty, input: String::new() }
}

#[test]
fn multiplication_binds_tighter() {
    assert_eq!(
        program("int main() { return 1+2*3; }"),
        "(func main [] {(return (+ 1 (* 2 3)))})"
    );
}

#[test]
fn subtraction_is_left_associative() {
    assert_eq!(
        program("int f() { return 1-2-3; }"),
        "(func f [] {(return (- (- 1 2) 3))})"
    );
}

#[test]
fn division_is_left_associative() {
    assert_eq!(
        program("int f() { return 8/4/2; }"),
        "(func f [] {(return (/ (/ 8 4) 2))})"
    );
}

#[test]
fn parentheses_group() {
    assert_eq!(
        program("int f() { return (1+2)*3; }"),
        "(func f [] {(return (* (+ 1 2) 3))})"
    );
}

#[test]
fn greater_than_swaps_operands() {
    assert_eq!(program("int f() { return a > b; }"), "(func f [] {(return (< b a))})");
    assert_eq!(program("int f() { return a < b; }"), "(func f [] {(return (< a b))})");
}

#[test]
fn arrays_and_indexing() {
    assert_eq!(
        program("int f() { int a[2][3]; return a[1]; }"),
        "(func f [] {(var ary(ary(int,2),3) a) (return (deref (+ a 1)))})"
    );
}

#[test]
fn array_length_in_parentheses() {
    assert_eq!(program("int f() { int a[(3)]; }"), "(func f [] {(var ary(int,3) a)})");
}

#[test]
fn array_length_must_be_a_number() {
    assert!(refused("int f() { int a[x]; }"));
}

#[test]
fn negative_array_length_wraps() {
    let tokens = vec![
        tok(TokenType::Int),
        tok(TokenType::Ident("f".to_string())),
        tok(TokenType::LeftParen),
        tok(TokenType::RightParen),
        tok(TokenType::LeftBrace),
        tok(TokenType::Int),
        tok(TokenType::Ident("a".to_string())),
        tok(TokenType::LeftBracket),
        tok(TokenType::Num(-1)),
        tok(TokenType::RightBracket),
        tok(TokenType::Semicolon),
        tok(TokenType::RightBrace),
    ];
    let funcs = parse(&tokens);
    assert_eq!(
        list(&funcs),
        format!("(func f [] {{(var ary(int,{}) a)}})", usize::MAX)
    );
}

#[test]
fn parameters_and_pointers() {
    assert_eq!(
        program("int f(int *p, int **q, int x) { return *p; }"),
        "(func f [(var ptr(int) p) (var ptr(ptr(int)) q) (var int x)] {(return (deref p))})"
    );
}

#[test]
fn declaration_with_initializer() {
    assert_eq!(
        program("int f() { int x = 3; return x; }"),
        "(func f [] {(var int x 3) (return x)})"
    );
}

#[test]
fn if_else() {
    assert_eq!(
        program("int f() { if (a) return 1; else return 2; }"),
        "(func f [] {(if a (return 1) (return 2))})"
    );
    assert_eq!(program("int f() { if (a) b; }"), "(func f [] {(if a (expr b))})");
}

#[test]
fn for_loop() {
    assert_eq!(
        program("int f() { for (int i = 0; i < 10; i = i + 1) x = x + i; }"),
        "(func f [] {(for (var int i 0) (< i 10) (= i (+ i 1)) (expr (= x (+ x i))))})"
    );
    assert_eq!(
        program("int f() { for (i = 0; i < 3; i = i + 1) {} }"),
        "(func f [] {(for (expr (= i 0)) (< i 3) (= i (+ i 1)) {})})"
    );
}

#[test]
fn calls() {
    assert_eq!(
        program("int f() { return g(1, x) + h(); }"),
        "(func f [] {(return (+ (call g [1 x]) (call h [])))})"
    );
}

#[test]
fn logical_operators() {
    assert_eq!(
        program("int f() { return a && b || c; }"),
        "(func f [] {(return (|| (&& a b) c))})"
    );
}

#[test]
fn sizeof_and_address_of() {
    assert_eq!(
        program("int f() { return sizeof &x; }"),
        "(func f [] {(return (sizeof (addr x)))})"
    );
}

#[test]
fn nested_blocks_and_expression_statements() {
    assert_eq!(program("int f() { 1; { x; } }"), "(func f [] {(expr 1) {(expr x)}})");
}

#[test]
fn two_functions() {
    assert_eq!(
        program("int f() { return 1; } int g() { return 2; }"),
        "(func f [] {(return 1)}) (func g [] {(return 2)})"
    );
}

#[test]
fn every_parsed_node_is_a_function() {
    let tokens = tokenize("int a() {} int b(int x) { return x; } int c() { c(); }".to_string());
    let funcs = parse(&tokens);
    assert_eq!(funcs.len(), 3);
    for f in &funcs {
        assert!(matches!(f.op, NodeType::Func(_, _, _)));
    }
}

#[test]
fn empty_program() {
    let tokens: Vec<Token> = vec![];
    assert!(parse(&tokens).is_empty());
    assert!(try_parse(&tokens).unwrap().is_empty());
}

#[test]
fn missing_semicolon() {
    assert!(refused("int f() { return 1 }"));
}

#[test]
fn truncated_input() {
    assert!(refused("int f() {"));
    assert!(refused("int f("));
    assert!(refused("int"));
    assert!(refused("int f() { return"));
}

#[test]
fn top_level_must_be_a_function() {
    assert!(refused("x"));
    assert!(refused("int 3() {}"));
}

#[test]
fn chained_assignment_is_refused() {
    assert!(refused("int f() { a = b = c; }"));
}

#[test]
fn unary_minus_is_refused() {
    assert!(refused("int f() { return -1; }"));
}

#[test]
fn node_and_type_constructors() {
    let n = Node::new(NodeType::Num(3));
    assert!(matches!(n.op, NodeType::Num(3)));
    assert!(matches!(n.ty.ty, Ctype::Int));
    assert_eq!(n.stacksize, 0);
    assert_eq!(n.offset, 0);
    let t = Type::new(Ctype::Ptr(Box::new(Type::new(Ctype::Int))));
    assert_eq!(type_str(&t), "ptr(int)");
    assert!(matches!(Type::default().ty, Ctype::Int));
    assert!(matches!(Ctype::default(), Ctype::Int));
}

#[test]
fn cloned_tree_is_equal() {
    let tokens = tokenize(
        "int f(int *p) { int a[2] = 1; if (p) return g(a[1], &p); else for (;;) {} }"
            .to_string(),
    );
    assert!(try_parse(&tokens).is_none());
    let tokens = tokenize(
        "int f(int *p) { int a[2] = 1; if (p > 0) return g(a[1], &p); else { x = a && b || c; } }"
            .to_string(),
    );
    let funcs = parse(&tokens);
    let copy: Vec<Node> = funcs.iter().map(|f| f.clone()).collect();
    assert_eq!(list(&copy), list(&funcs));
    let t = Type::new(Ctype::Ary(Box::new(Type::new(Ctype::Int)), 4));
    assert_eq!(type_str(&t.clone()), "ary(int,4)");
    assert_eq!(type_str(&Type::new(t.ty.clone())), "ary(int,4)");
    let op = funcs[0].op.clone();
    assert!(matches!(op, NodeType::Func(_, _, _)));
}

fn check_fresh(n: &Node) {
    assert_eq!(n.stacksize, 0);
    assert_eq!(n.offset, 0);
    let children: Vec<&Node> = match &n.op {
        NodeType::Vardef(_, init) => init.iter().map(|b| &**b).collect(),
        NodeType::BinOp(_, l, r) | NodeType::Logand(l, r) | NodeType::Logor(l, r) => vec![&**l, &**r],
        NodeType::If(c, t, e) => {
            let mut v = vec![&**c, &**t];
            v.extend(e.iter().map(|b| &**b));
            v
        }
        NodeType::For(i, c, s, b) => vec![&**i, &**c, &**s, &**b],
        NodeType::Addr(e)
        | NodeType::Deref(e)
        | NodeType::Return(e)
        | NodeType::Sizeof(e)
        | NodeType::ExprStmt(e) => vec![&**e],
        NodeType::Call(_, args) => args.iter().collect(),
        NodeType::Func(_, params, body) => {
            let mut v: Vec<&Node> = params.iter().collect();
            v.push(&**body);
            v
        }
        NodeType::CompStmt(ss) => ss.iter().collect(),
        NodeType::Num(_) | NodeType::Ident(_) | NodeType::Lvar => vec![],
    };
    if !matches!(n.op, NodeType::Vardef(_, _)) {
        assert_eq!(type_str(&n.ty), "int");
    }
    for c in children {
        check_fresh(c);
    }
}

#[test]
fn parsed_trees_carry_no_frame_data() {
    let tokens = tokenize(
        "int f(int **p, int n) { int a[3][4] = *p; for (int i = 0; i < n; i = i + 1) { if (a[i] > 2) return g(i, &a); else x = sizeof a || a && 0; } }"
            .to_string(),
    );
    assert!(try_tokenize("x = !0;".to_string()).is_none());
    let funcs = parse(&tokens);
    assert_eq!(funcs.len(), 1);
    for f in &funcs {
        check_fresh(f);
    }
    match &funcs[0].op {
        NodeType::Func(_, params, _) => {
            assert_eq!(type_str(&params[0].ty), "ptr(ptr(int))");
        }
        _ => panic!("function expected"),
    }
}

#[test]
fn parsing_joined_tokens_joins_definitions() {
    let a = "int f() { return 1; }";
    let b = "int g(int x) { if (x) return x; }";
    let ta = tokenize(a.to_string());
    let tb = tokenize(b.to_string());
    let mut joined = ta.clone();
    joined.extend(tb.iter().cloned());
    assert_eq!(
        list(&parse(&joined)),
        format!("{} {}", list(&parse(&ta)), list(&parse(&tb)))
    );
}

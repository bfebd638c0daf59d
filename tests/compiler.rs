use asmc::{compile_to_asm, tokenize, tokenize_graphemes, Expression, ProgramNode, StatementNode, Term, Token, Tokens};

fn compile(src: &str) -> Result<String, asmc::CompilationError> {
    compile_to_asm(&src.to_string())
}

fn chars(s: &str) -> Vec<char> {
    s.chars().collect()
}

fn graphemes(parts: &[&str]) -> Vec<Vec<char>> {
    parts.iter().map(|p| chars(p)).collect()
}

#[test]
fn declarations_and_return_compile() {
    let code = compile("let x = 5; let y = x + 3; return y;").unwrap();
    assert!(code.starts_with("section .text\n"));
    assert!(code.contains("_start:\n    push rbp\n    mov rbp, rsp\n"));
    assert!(code.contains("    mov rdi, 5\n    push rdi\n"));
    assert!(code.contains("    mov rdi, [rbp - 8]\n    push rdi\n    mov rdi, 3\n    pop rax\n    add rax, rdi\n    mov rdi, rax\n"));
    assert!(code.contains("    mov rdi, [rbp - 16]\n    mov rax, 60\n    syscall\n"));
    assert!(code.ends_with("section .data\n"));
}

#[test]
fn function_call_pushes_arguments() {
    let code = compile("fn add(a, b) { return a + b; } return add(2, 3);").unwrap();
    assert!(code.contains("add:\n    push rbp\n    mov rbp, rsp\n"));
    assert!(code.contains("    mov rdi, [rbp + 24]\n"));
    assert!(code.contains("    mov rdi, [rbp + 16]\n"));
    assert!(code.contains("    mov rdi, 2\n    push rdi\n    mov rdi, 3\n    push rdi\n    call add\n"));
    let text = code.find("section .text").unwrap();
    let f = code.find("add:").unwrap();
    let entry = code.find("_start:").unwrap();
    assert!(text < f && f < entry);
}

#[test]
fn array_store_and_load() {
    let code = compile("let arr[3] = 0; arr[1] = 9; return arr[1];").unwrap();
    assert!(code.contains("    mov rdi, 0\n    push rdi\n    push rdi\n    push rdi\n"));
    assert!(code.contains("    mov [rbp - 24 + rax * 8], rdi\n"));
    assert!(code.contains("    mov rdi, [rbp - 24 + rax * 8]\n    mov rax, 60\n"));
}

#[test]
fn array_of_size_zero_is_refused() {
    let e = compile("let arr[0] = 0;").unwrap_err();
    assert_eq!(e.message(), "array size cant be negative or 0");
    assert_eq!(e.line_num, Some(1));
}

#[test]
fn unterminated_string_fails_lexing() {
    let e = compile("print \"abc;").unwrap_err();
    assert_eq!(e.message(), "unmatched \"");
    assert_eq!(e.line_num, None);
    assert!(tokenize(&"print \"abc;".to_string()).is_err());
}

#[test]
fn less_than_materializes_with_three_labels() {
    let code = compile("return 3 < 5;").unwrap();
    assert!(code.contains("    cmp rax, rdi\n    jl LABEL1\nLABEL2:\n    mov rdi, 0\n    jmp LABEL3\nLABEL1:\n    mov rdi, 1\nLABEL3:\n"));
}

#[test]
fn greater_than_and_equals_use_their_jumps() {
    let code = compile("return 5 > 3;").unwrap();
    assert!(code.contains("    jg LABEL1\n"));
    let code = compile("return 4 = 4;").unwrap();
    assert!(code.contains("    je LABEL1\n"));
}

#[test]
fn redeclaration_in_one_scope_fails() {
    let e = compile("let x = 1; let x = 2;").unwrap_err();
    assert_eq!(e.message(), "Variable x already exists");
}

#[test]
fn shadowing_resolves_inner_then_outer() {
    let code = compile("let x = 1; { let x = 2; print x, x; } return x;").unwrap();
    assert!(code.contains("    mov rdi, [rbp - 16]\n    push rdi\n    mov rdi, [rbp - 16]\n"));
    assert!(code.contains("    pop rsi\n    mov rdi, [rbp - 8]\n    mov rax, 60\n"));
}

#[test]
fn break_outside_loop_is_refused() {
    let e = compile("break;").unwrap_err();
    assert_eq!(e.message(), "break without label");
}

#[test]
fn break_in_if_jumps_to_loop_exit() {
    let code = compile("while 1 { if 1 { break; } }").unwrap();
    assert!(code.contains("LABEL1:\n    mov rdi, 1\n    cmp rdi, 0\n    je LABEL2\n"));
    assert!(code.contains("    je LABEL3\n    jmp LABEL2\nLABEL3:\n"));
    assert!(code.contains("    jmp LABEL1\nLABEL2:\n"));
}

#[test]
fn words_keep_their_text() {
    let toks = tokenize_graphemes(&graphemes(&["f", "o", "o", " ", "b", "a", "r"])).unwrap();
    assert_eq!(toks.len(), 2);
    assert!(matches!(&toks[0], Token::Identifier(s) if s == "foo"));
    assert!(matches!(&toks[1], Token::Identifier(s) if s == "bar"));
}

#[test]
fn string_literal_keeps_its_text() {
    let toks = tokenize_graphemes(&graphemes(&["\"", "h", "i", " ", "x", "\""])).unwrap();
    assert_eq!(toks.len(), 1);
    assert!(matches!(&toks[0], Token::String(s) if s == "hi x"));
}

#[test]
fn keywords_booleans_and_numbers() {
    let toks = tokenize_graphemes(&graphemes(&["l", "e", "t", " ", "t", "r", "u", "e", ";", "4", "2", "\n", "f", "n"])).unwrap();
    assert!(matches!(toks[0], Token::Declaration));
    assert!(matches!(toks[1], Token::Int(1)));
    assert!(matches!(toks[2], Token::EndStatement));
    assert!(matches!(toks[3], Token::Int(42)));
    assert!(matches!(toks[4], Token::EndLine));
    assert!(matches!(toks[5], Token::Function));
    assert_eq!(toks.len(), 6);
}

#[test]
fn integer_too_large_is_an_identifier() {
    let toks = tokenize_graphemes(&graphemes(&["2", "1", "4", "7", "4", "8", "3", "6", "4", "8"])).unwrap();
    assert!(matches!(&toks[0], Token::Identifier(s) if s == "2147483648"));
    let toks = tokenize_graphemes(&graphemes(&["2", "1", "4", "7", "4", "8", "3", "6", "4", "7"])).unwrap();
    assert!(matches!(toks[0], Token::Int(2147483647)));
}

#[test]
fn multibyte_graphemes_stay_whole() {
    let stream = tokenize(&"let e\u{301}t\u{e9} = 1;".to_string()).unwrap();
    let mut stream = stream;
    assert!(matches!(stream.next().unwrap(), Token::Declaration));
    assert!(matches!(stream.next().unwrap(), Token::Identifier(s) if s == "e\u{301}t\u{e9}"));
}

#[test]
fn stream_skips_line_markers_and_counts_lines() {
    let mut stream = Tokens::new(vec![Token::EndLine, Token::Return, Token::EndLine, Token::EndLine, Token::Break]);
    assert_eq!(stream.get_line_num(), 1);
    assert!(matches!(stream.peek(0).unwrap(), Token::Return));
    assert!(matches!(stream.peek(1).unwrap(), Token::Break));
    assert!(stream.peek(2).is_err());
    assert!(matches!(stream.next().unwrap(), Token::Return));
    assert_eq!(stream.get_line_num(), 2);
    assert!(matches!(stream.next().unwrap(), Token::Break));
    assert_eq!(stream.get_line_num(), 4);
    assert_eq!(stream.next().unwrap_err().message(), "Missing Token");
}

#[test]
fn operator_precedence_and_grouping() {
    assert_eq!(Token::Plus.get_operator_info().map(|i| (i.0, i.1)), Some((1, true)));
    assert_eq!(Token::Minus.get_operator_info().map(|i| (i.0, i.1)), Some((1, false)));
    assert_eq!(Token::Star.get_operator_info().map(|i| (i.0, i.1)), Some((2, true)));
    assert_eq!(Token::Slash.get_operator_info().map(|i| (i.0, i.1)), Some((2, false)));
    assert_eq!(Token::LessThan.get_operator_info().map(|i| (i.0, i.1)), Some((0, true)));
    assert!(Token::Comma.get_operator_info().is_none());
}

fn parse_expr(src: &str) -> Expression {
    let mut stream = tokenize(&src.to_string()).unwrap();
    Expression::parse(&mut stream, 0).unwrap()
}

#[test]
fn plus_chain_groups_left() {
    match parse_expr("1 + 2 + 3;") {
        Expression::Binary { operator: Token::Plus, left, right } => {
            assert!(matches!(*left, Expression::Binary { operator: Token::Plus, .. }));
            assert!(matches!(*right, Expression::Term(Term::Int(3))));
        },
        _ => panic!("expected a sum"),
    }
}

#[test]
fn minus_chain_groups_right() {
    match parse_expr("10 - 4 - 3;") {
        Expression::Binary { operator: Token::Minus, left, right } => {
            assert!(matches!(*left, Expression::Term(Term::Int(10))));
            assert!(matches!(*right, Expression::Binary { operator: Token::Minus, .. }));
        },
        _ => panic!("expected a difference"),
    }
}

#[test]
fn product_binds_tighter_than_sum() {
    match parse_expr("1 + 2 * 3;") {
        Expression::Binary { operator: Token::Plus, left, right } => {
            assert!(matches!(*left, Expression::Term(Term::Int(1))));
            assert!(matches!(*right, Expression::Binary { operator: Token::Star, .. }));
        },
        _ => panic!("expected a sum"),
    }
}

#[test]
fn reference_of_call_is_refused() {
    let mut stream = tokenize(&"&f(1);".to_string()).unwrap();
    let e = Term::parse(&mut stream).unwrap_err();
    assert_eq!(e.message(), "cannot reference a function");
}

#[test]
fn program_parses_every_statement() {
    let mut stream = tokenize(&"let a = 1;\nwhile a { a = a - 1; }\nprint \"x\", 1;".to_string()).unwrap();
    let program = ProgramNode::parse(&mut stream).unwrap();
    assert_eq!(program.statements.len(), 3);
    assert!(matches!(program.statements[0], StatementNode::Declaration { size: 1, .. }));
    assert!(matches!(program.statements[1], StatementNode::While { .. }));
    assert!(matches!(program.statements[2], StatementNode::Print { .. }));
    assert_eq!(stream.get_line_num(), 3);
}

#[test]
fn unclosed_block_is_reported() {
    let e = compile("{ let x = 1;").unwrap_err();
    assert_eq!(e.message(), "unclosed scope");
}

#[test]
fn undeclared_variable_is_reported() {
    let e = compile("return z;").unwrap_err();
    assert_eq!(e.message(), "Undeclared variable z");
    let e = compile("z = 1;").unwrap_err();
    assert_eq!(e.message(), "Variable z doesnt exist");
}

#[test]
fn calls_need_a_declared_function() {
    let e = compile("return f();").unwrap_err();
    assert_eq!(e.message(), "undefined function");
}

#[test]
fn function_defined_twice_is_reported() {
    let e = compile("fn f() { } fn f() { }").unwrap_err();
    assert_eq!(e.message(), "function f already exists");
}

#[test]
fn call_may_precede_definition() {
    let code = compile("fn a() { return b(); } fn b() { return 1; } return a();").unwrap();
    assert!(code.contains("    call b\n"));
    assert!(code.contains("b:\n"));
}

#[test]
fn strings_go_to_the_data_section() {
    let code = compile("print \"hi\", 2;").unwrap();
    assert!(code.contains("    mov rdi, STRING1\n"));
    assert!(code.contains("    mov rax, 1\n    mov rdi, 1\n    syscall\n"));
    assert!(code.ends_with("section .data\nSTRING1:\n    db \"hi\", 10\n"));
}

#[test]
fn read_uses_the_read_call() {
    let code = compile("let b[4] = 0; read &b, 4;").unwrap();
    assert!(code.contains("    lea rdi, [rbp - 32]\n"));
    assert!(code.contains("    pop rsi\n    mov rdx, rdi\n    mov rax, 0\n    mov rdi, 0\n    syscall\n"));
}

#[test]
fn parse_errors_carry_the_line() {
    let e = compile("let a = 1;\nlet b = ;").unwrap_err();
    assert_eq!(e.message(), "weird term");
    assert_eq!(e.line_num, Some(2));
    assert_eq!(e.to_text(), "Compilation Error: weird term on line 2");
}

#[test]
fn unexpected_statement_start() {
    let e = compile("= 1;").unwrap_err();
    assert_eq!(e.message(), "unexpected token");
}

#[test]
fn error_text_without_line() {
    let e = asmc::CompilationError::new("boom");
    assert_eq!(e.to_text(), "Compilation Error: boom");
}

#[test]
fn block_pops_what_it_pushed() {
    let code = compile("{ let a = 1; let b[2] = 3; }").unwrap();
    assert!(code.contains("    mov rdi, 3\n    push rdi\n    push rdi\n    pop rsi\n    pop rsi\n    pop rsi\nsection .data\n"));
}

#[test]
fn five_less_than_three_uses_the_same_shape() {
    let code = compile("return 5 < 3;").unwrap();
    assert!(code.contains("    mov rdi, 5\n    push rdi\n    mov rdi, 3\n    pop rax\n    cmp rax, rdi\n    jl LABEL1\nLABEL2:\n    mov rdi, 0\n    jmp LABEL3\nLABEL1:\n    mov rdi, 1\nLABEL3:\n"));
}

#[test]
fn return_in_function_unwinds_its_frame() {
    let code = compile("fn f() { let x = 7; return x; } return f();").unwrap();
    assert!(code.contains("f:\n    push rbp\n    mov rbp, rsp\n    mov rdi, 7\n    push rdi\n    mov rdi, [rbp - 8]\n    pop rsi\n    pop rbp\n    ret\n"));
}

#[test]
fn division_and_product() {
    let code = compile("return 8 / 2 * 3;").unwrap();
    assert!(code.contains("    mov rdx, 0\n    div rdi\n    mov rdi, rax\n"));
    assert!(code.contains("    mul rdi\n    mov rdi, rax\n"));
}

#[test]
fn dereference_and_indexed_reference() {
    let code = compile("let a[2] = 1; let p = &a[1]; return *p;").unwrap();
    assert!(code.contains("    mov rdi, 1\n    mov rax, rdi\n    lea rdi, [rbp - 16 + rax * 8]\n"));
    assert!(code.contains("    mov rdi, [rbp - 24]\n    mov rdi, [rdi]\n"));
}

#[test]
fn empty_source_compiles_to_the_skeleton() {
    let code = compile("").unwrap();
    assert_eq!(code, "section .text\nglobal _start:\n_start:\n    push rbp\n    mov rbp, rsp\nsection .data\n");
}

#[test]
fn stray_token_after_statement_fails() {
    let e = compile("return 1; )").unwrap_err();
    assert_eq!(e.message(), "unexpected token");
}

fn read_back(t: &Token) -> String {
    match t {
        Token::Identifier(s) | Token::String(s) => s.clone(),
        Token::Int(v) => v.to_string(),
        Token::Return => "return".to_string(),
        Token::Declaration => "let".to_string(),
        Token::If => "if".to_string(),
        Token::While => "while".to_string(),
        Token::Break => "break".to_string(),
        Token::Print => "print".to_string(),
        Token::Read => "read".to_string(),
        Token::Function => "fn".to_string(),
        _ => String::new(),
    }
}

#[test]
fn tokens_read_back_to_the_lexical_content() {
    let src = "let count = 12;\nwhile count > 0 { print \"tick tock\", 9; count = count - 1; }";
    let gs: Vec<Vec<char>> = src.chars().map(|c| vec![c]).collect();
    let toks = tokenize_graphemes(&gs).unwrap();
    let text: String = toks.iter().map(read_back).collect();
    assert_eq!(text, "letcount12whilecount0printtick tock9countcount1");
}

#[test]
fn boolean_words_read_back_as_numbers() {
    let gs: Vec<Vec<char>> = "true false".chars().map(|c| vec![c]).collect();
    let toks = tokenize_graphemes(&gs).unwrap();
    let text: String = toks.iter().map(read_back).collect();
    assert_eq!(text, "10");
}

#[test]
fn negative_array_size_is_refused() {
    let e = compile("let a[-1] = 0;").unwrap_err();
    assert_eq!(e.message(), "array size cant be negative or 0");
    assert_eq!(e.line_num, Some(1));
}

#[test]
fn code_generation_errors_carry_the_line() {
    let e = compile("let x = 1;\nlet x = 2;").unwrap_err();
    assert_eq!(e.message(), "Variable x already exists");
    assert_eq!(e.line_num, Some(2));
}

#[test]
fn stray_closing_brace_fails() {
    let e = compile("return 1; }").unwrap_err();
    assert_eq!(e.message(), "unexpected token");
}

use phronima::{
    create_references_for_blocks, load_module, parse_program_structure, parse_tokens,
    tokenize_line, tokenize_source_code, Function, Lexer, PhronError, Program, Token,
};

fn values(tokens: &[Token]) -> Vec<String> {
    tokens.iter().map(|t| t.value.clone()).collect()
}

fn parse(source: &str) -> Result<Vec<Function>, PhronError> {
    parse_tokens(tokenize_source_code("p.phron", &source.to_string()).unwrap())
}

#[test]
fn line_columns_are_one_based() {
    let tokens = tokenize_line("f", 4, "  34 43    67").unwrap();
    let cols: Vec<usize> = tokens.iter().map(|t| t.col).collect();
    assert_eq!(cols, vec![3, 6, 12]);
    assert_eq!(values(&tokens), vec!["34", "43", "67"]);
    assert!(tokens.iter().all(|t| t.row == 4 && t.filepath == "f"));
}

#[test]
fn blank_and_comment_lines_have_no_tokens() {
    assert!(tokenize_line("f", 1, "   \t  ").unwrap().is_empty());
    assert!(tokenize_line("f", 1, "   // just a remark").unwrap().is_empty());
    assert!(tokenize_line("f", 1, "").unwrap().is_empty());
}

#[test]
fn comment_ends_the_line() {
    let tokens = tokenize_line("f", 1, "1 2 // 3 4").unwrap();
    assert_eq!(values(&tokens), vec!["1", "2"]);
    let tokens = tokenize_line("f", 1, "a//b c").unwrap();
    assert_eq!(values(&tokens), vec!["a//b", "c"]);
}

#[test]
fn string_literal_keeps_its_quotes() {
    let tokens = tokenize_line("f", 1, "x \"a b\" y").unwrap();
    assert_eq!(values(&tokens), vec!["x", "\"a b\"", "y"]);
    assert_eq!(tokens[1].col, 3);
    assert_eq!(tokens[2].col, 9);
}

#[test]
fn unterminated_string_is_a_lex_error() {
    match tokenize_line("f.phron", 7, "1 \"abc") {
        Err(PhronError::UnterminatedString { filepath, row, col }) => {
            assert_eq!(filepath, "f.phron");
            assert_eq!(row, 7);
            assert_eq!(col, 3);
        }
        other => panic!("unexpected {:?}", other),
    }
}

#[test]
fn rows_count_lines_of_the_source() {
    let tokens = tokenize_source_code("f", &"fn main\n\n  1 // c\nend\n".to_string()).unwrap();
    let rows: Vec<usize> = tokens.iter().map(|t| t.row).collect();
    assert_eq!(rows, vec![1, 1, 3, 4]);
    assert_eq!(tokens[2].col, 3);
}

#[test]
fn unterminated_string_on_a_later_line() {
    match tokenize_source_code("f", &"fn main\n  \"x\nend".to_string()) {
        Err(PhronError::UnterminatedString { row, col, .. }) => {
            assert_eq!((row, col), (2, 3));
        }
        other => panic!("unexpected {:?}", other),
    }
}

#[test]
fn keywords_numbers_and_names() {
    let parsed = parse("fn main 0 255 +7 256 pop + - * chout numout write read mem initmem if end else while < > = swap dup ? not foo \"s\" import lib").unwrap();
    let expected = vec![
        Function::FunctionDeclaration("main".to_string()),
        Function::Push(0),
        Function::Push(255),
        Function::Push(7),
        Function::FunctionCall("256".to_string()),
        Function::Pop(),
        Function::Plus(),
        Function::Minus(),
        Function::Mult(),
        Function::CharOut(),
        Function::NumOut(),
        Function::Write(),
        Function::Read(),
        Function::Mem(),
        Function::InitMem(),
        Function::If(None),
        Function::End(None),
        Function::Else(None),
        Function::While(None),
        Function::LessThan(),
        Function::GreaterThan(),
        Function::Equals(),
        Function::Swap(),
        Function::Dup(),
        Function::GetStackHeight(),
        Function::Not(),
        Function::FunctionCall("foo".to_string()),
        Function::StringLiteral("s".to_string()),
        Function::Import("lib".to_string()),
    ];
    assert_eq!(parsed, expected);
}

#[test]
fn fn_without_name_is_a_parse_error() {
    match parse("1 2\n  fn") {
        Err(PhronError::MissingOperand { row, col, .. }) => assert_eq!((row, col), (2, 3)),
        other => panic!("unexpected {:?}", other),
    }
}

#[test]
fn import_without_path_is_a_parse_error() {
    assert!(matches!(parse("import"), Err(PhronError::MissingOperand { .. })));
}

#[test]
fn lone_quote_is_a_malformed_string() {
    let tokens = vec![Token::new("f", 1, 5, "\"")];
    match parse_tokens(tokens) {
        Err(PhronError::MalformedString { col, .. }) => assert_eq!(col, 5),
        other => panic!("unexpected {:?}", other),
    }
}

#[test]
fn structure_groups_functions_and_imports() {
    let parsed = parse("import a.phron\nfn f 1 end\nimport b.phron\nfn main 2 if f end end").unwrap();
    let p = parse_program_structure(parsed).unwrap();
    assert_eq!(p.imports.iter().cloned().collect::<Vec<String>>(), vec!["a.phron", "b.phron"]);
    assert_eq!(p.functions.len(), 2);
    assert_eq!(p.functions[0].0, "f");
    assert_eq!(p.functions[0].1, vec![Function::Push(1)]);
    assert_eq!(p.functions[1].0, "main");
    assert_eq!(
        p.functions[1].1,
        vec![
            Function::Push(2),
            Function::If(None),
            Function::FunctionCall("f".to_string()),
            Function::End(None)
        ]
    );
}

#[test]
fn stray_end_is_a_structure_error() {
    let parsed = parse("fn main end end").unwrap();
    match parse_program_structure(parsed) {
        Err(PhronError::UnmatchedBlock { index }) => assert_eq!(index, 2),
        other => panic!("unexpected {:?}", other.err()),
    }
}

#[test]
fn else_without_if_is_a_structure_error() {
    let parsed = parse("fn main 1 else end end").unwrap();
    assert!(matches!(parse_program_structure(parsed), Err(PhronError::UnmatchedBlock { index: 2 })));
}

#[test]
fn unclosed_function_is_a_structure_error() {
    let parsed = parse("fn main 1 if end").unwrap();
    assert!(matches!(parse_program_structure(parsed), Err(PhronError::UnmatchedBlock { index: 4 })));
}

#[test]
fn nested_function_is_a_structure_error() {
    let parsed = parse("fn main fn inner end end").unwrap();
    assert!(matches!(parse_program_structure(parsed), Err(PhronError::UnmatchedBlock { index: 1 })));
}

#[test]
fn blocks_get_their_targets() {
    let mut body = vec![
        Function::Push(0),
        Function::If(None),
        Function::Push(65),
        Function::Else(None),
        Function::Push(66),
        Function::End(None),
        Function::Push(3),
        Function::While(None),
        Function::Pop(),
        Function::End(None),
    ];
    create_references_for_blocks(&mut body).unwrap();
    assert_eq!(body[1], Function::If(Some(4)));
    assert_eq!(body[3], Function::Else(Some(5)));
    assert_eq!(body[5], Function::End(Some(6)));
    assert_eq!(body[7], Function::While(Some(10)));
    assert_eq!(body[9], Function::End(Some(7)));
    assert_eq!(body[0], Function::Push(0));
}

#[test]
fn plain_if_points_at_its_end() {
    let mut body = vec![Function::If(None), Function::Pop(), Function::End(None)];
    create_references_for_blocks(&mut body).unwrap();
    assert_eq!(body, vec![Function::If(Some(2)), Function::Pop(), Function::End(Some(3))]);
}

#[test]
fn unbalanced_blocks_are_rejected() {
    let mut body = vec![Function::End(None)];
    assert!(matches!(create_references_for_blocks(&mut body), Err(PhronError::UnmatchedBlock { index: 0 })));
    let mut body = vec![Function::While(None), Function::Else(None)];
    assert!(matches!(create_references_for_blocks(&mut body), Err(PhronError::UnmatchedBlock { index: 1 })));
    let mut body = vec![Function::If(None)];
    assert!(matches!(create_references_for_blocks(&mut body), Err(PhronError::UnmatchedBlock { index: 1 })));
}

#[test]
fn lexer_hands_out_tokens_in_order() {
    let mut lexer = Lexer::new("fn main\n 1 end".to_string());
    assert!(lexer.next_token().is_none());
    lexer.tokenize().unwrap();
    let mut seen = vec![];
    while let Some(t) = lexer.next_token() {
        seen.push((t.value, t.row, t.col));
    }
    assert_eq!(
        seen,
        vec![
            ("fn".to_string(), 1, 1),
            ("main".to_string(), 1, 4),
            ("1".to_string(), 2, 2),
            ("end".to_string(), 2, 4)
        ]
    );
}

#[test]
fn importing_twice_matches_importing_once() {
    let module = "fn helper 66 chout end fn main helper end";
    let mut once = load_module("main.phron", &"fn helper 65 chout end".to_string()).unwrap();
    once.consume(load_module("lib.phron", &module.to_string()).unwrap());
    let mut twice = load_module("main.phron", &"fn helper 65 chout end".to_string()).unwrap();
    twice.consume(load_module("lib.phron", &module.to_string()).unwrap());
    twice.consume(load_module("lib.phron", &module.to_string()).unwrap());
    once.resolve_blocks().unwrap();
    twice.resolve_blocks().unwrap();
    assert_eq!(phronima::simulate_program(&once, 1000).unwrap(), "B");
    assert_eq!(phronima::simulate_program(&twice, 1000).unwrap(), "B");
    assert_eq!(
        phronima::compile_program(&once).unwrap(),
        phronima::compile_program(&twice).unwrap()
    );
}

#[test]
fn consume_appends_imports_and_overrides_functions() {
    let mut base = load_module("a", &"import x\nfn f 1 end fn g 2 end".to_string()).unwrap();
    let other = load_module("b", &"import y\nfn f 3 end".to_string()).unwrap();
    base.consume(other);
    assert_eq!(base.imports.iter().cloned().collect::<Vec<String>>(), vec!["x", "y"]);
    let f = "f".to_string();
    let i = base.find(&f).unwrap();
    assert_eq!(base.functions[i].1, vec![Function::Push(3)]);
    assert!(base.has_function(&"g".to_string()));
    assert!(!base.has_function(&"h".to_string()));
    let _ = Program::new(Default::default(), vec![]);
}

use token_lexer::{tokenize, Character, Function, FunctionArgEnd, Token};

fn both_passes(input: &[u8]) -> (Result<usize, (usize, &'static str)>, Result<Vec<Token<'_>>, (usize, &'static str)>) {
    let mut stack = vec![0usize; input.len()];
    let sized = tokenize(input, &mut stack, &mut None);
    let n = match sized {
        Ok(n) => n,
        Err(e) => return (sized, Err(e)),
    };
    let mut output = vec![Token::default(); n];
    let filled = tokenize(input, &mut stack, &mut Some(&mut output[..]));
    (sized, filled.map(|_| output))
}

fn chr(offset: usize, val: u8) -> Token<'static> {
    Token::Character(Character { offset, val })
}

#[test]
fn trailing_backslash_is_dropped() {
    let (sized, filled) = both_passes(b"ab\\");
    assert_eq!(sized, Ok(2));
    assert_eq!(filled, Ok(vec![chr(0, b'a'), chr(1, b'b')]));
}

#[test]
fn escaped_backslash_and_brace() {
    let (sized, filled) = both_passes(b"\\\\\\}x");
    assert_eq!(sized, Ok(3));
    assert_eq!(filled, Ok(vec![chr(0, b'\\'), chr(2, b'}'), chr(4, b'x')]));
}

#[test]
fn top_level_delimiters_are_text() {
    let (sized, filled) = both_passes(b"a,b}");
    assert_eq!(sized, Ok(4));
    assert_eq!(filled, Ok(vec![chr(0, b'a'), chr(1, b','), chr(2, b'b'), chr(3, b'}')]));
}

#[test]
fn empty_input_gives_no_tokens() {
    let (sized, filled) = both_passes(b"");
    assert_eq!(sized, Ok(0));
    assert_eq!(filled, Ok(vec![]));
}

#[test]
fn incomplete_name_reported_on_both_passes() {
    let input = b"{hi";
    let mut stack = [0usize; 3];
    assert_eq!(
        tokenize(input, &mut stack, &mut None),
        Err((1, "function name wasn't completed"))
    );
    let mut output: [Token; 0] = [];
    assert_eq!(
        tokenize(input, &mut stack, &mut Some(&mut output)),
        Err((1, "function name wasn't completed"))
    );
}

#[test]
fn unclosed_function_located_at_its_brace() {
    let input = b"{hi,ab";
    let mut stack = [0usize; 6];
    assert_eq!(tokenize(input, &mut stack, &mut None), Ok(3));
    let mut output = [Token::default(); 3];
    assert_eq!(
        tokenize(input, &mut stack, &mut Some(&mut output)),
        Err((0, "unclosed function"))
    );
}

#[test]
fn unclosed_reports_innermost_function() {
    let input = b"x{a,{b,y";
    let mut stack = [0usize; 8];
    assert_eq!(tokenize(input, &mut stack, &mut None), Ok(4));
    let mut output = [Token::default(); 4];
    assert_eq!(
        tokenize(input, &mut stack, &mut Some(&mut output)),
        Err((4, "unclosed function"))
    );
}

#[test]
fn sizing_and_filling_counts_agree() {
    let inputs: [&[u8]; 6] = [
        b"abc",
        b"{}",
        b"{test,abc}",
        b"{outer,{inner,a,b},1,2}z",
        b"\\a\\n\\{",
        b"{a}{b,{c},}",
    ];
    for input in inputs.iter() {
        let (sized, filled) = both_passes(input);
        let filled = filled.unwrap();
        assert_eq!(sized, Ok(filled.len()));
        assert!(filled.iter().all(|t| *t != Token::Invalid));
    }
}

#[test]
fn argumentless_functions_have_unit_delta() {
    let (_, filled) = both_passes(b"{a}{b,{c},}");
    let tokens = filled.unwrap();
    assert_eq!(
        tokens[0],
        Token::Function(Function { offset: 0, name: b"a", num_args: 0, delta: 1, first_arg_delta: None })
    );
    assert_eq!(
        tokens[2],
        Token::Function(Function { offset: 6, name: b"c", num_args: 0, delta: 1, first_arg_delta: None })
    );
    assert_eq!(
        tokens[1],
        Token::Function(Function { offset: 3, name: b"b", num_args: 2, delta: 4, first_arg_delta: Some(2) })
    );
    assert_eq!(tokens[3], Token::FunctionArgEnd(FunctionArgEnd { offset: 9, arg_delta: Some(1) }));
    assert_eq!(tokens[4], Token::FunctionArgEnd(FunctionArgEnd { offset: 10, arg_delta: None }));
    assert_eq!(tokens.len(), 5);
}

#[test]
fn delta_skips_to_next_sibling() {
    let (_, filled) = both_passes(b"{outer,{inner,a,b},1,2}z");
    let tokens = filled.unwrap();
    match tokens[1] {
        Token::Function(f) => {
            assert_eq!(f.delta, 5);
            assert_eq!(tokens[1 + f.delta], Token::FunctionArgEnd(FunctionArgEnd { offset: 18, arg_delta: Some(2) }));
        }
        _ => panic!("expected a function"),
    }
    match tokens[0] {
        Token::Function(f) => assert_eq!(tokens[f.delta], chr(23, b'z')),
        _ => panic!("expected a function"),
    }
}

#[test]
fn argument_chain_counts_arguments() {
    let (_, filled) = both_passes(b"{outer,{inner,a,b},1,2}z");
    let tokens = filled.unwrap();
    for (k, t) in tokens.iter().enumerate() {
        if let Token::Function(f) = t {
            let mut seen = 0;
            let mut next = f.first_arg_delta.map(|d| k + d);
            while let Some(j) = next {
                match tokens[j] {
                    Token::FunctionArgEnd(e) => {
                        seen += 1;
                        next = e.arg_delta.map(|d| j + d);
                    }
                    _ => panic!("chain left the argument markers"),
                }
            }
            assert_eq!(seen, f.num_args);
        }
    }
}

#[test]
fn defaults() {
    assert_eq!(Token::default(), Token::Invalid);
    let f = Function::default();
    assert_eq!((f.offset, f.name.len(), f.num_args, f.delta, f.first_arg_delta), (0, 0, 0, 0, None));
    assert_eq!(FunctionArgEnd::default(), FunctionArgEnd { offset: 0, arg_delta: None });
}

#[test]
fn owned_buffers_run_both_passes() {
    let tokens = token_lexer::tokenize_to_vec(b"{n,1,2}").unwrap();
    assert_eq!(tokens.len(), 5);
    assert_eq!(
        tokens[0],
        Token::Function(Function { offset: 0, name: b"n", num_args: 2, delta: 5, first_arg_delta: Some(2) })
    );
    assert_eq!(tokens[2], Token::FunctionArgEnd(FunctionArgEnd { offset: 4, arg_delta: Some(2) }));
    assert_eq!(token_lexer::tokenize_to_vec(b"{hi,ab"), Err((0, "unclosed function")));
    assert_eq!(token_lexer::tokenize_to_vec(b"{hi"), Err((1, "function name wasn't completed")));
}

fn offset_of(t: &Token) -> usize {
    match t {
        Token::Invalid => panic!("sentinel in a result"),
        Token::Character(c) => c.offset,
        Token::Function(f) => f.offset,
        Token::FunctionArgEnd(e) => e.offset,
    }
}

#[test]
fn offsets_never_decrease() {
    let inputs: [&[u8]; 4] = [b",\\{{a,\\,}", b"\\a\\n\\{", b"{outer,{inner,a,b},1,2}z", b"x{ab}\\q{c,d}"];
    for input in inputs.iter() {
        let tokens = token_lexer::tokenize_to_vec(input).unwrap();
        let offsets: Vec<usize> = tokens.iter().map(offset_of).collect();
        assert!(offsets.windows(2).all(|w| w[0] <= w[1]), "{:?}", offsets);
        assert!(offsets.iter().all(|o| *o < input.len()));
    }
}

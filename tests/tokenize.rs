use token_lexer::{tokenize, Character, Function, FunctionArgEnd, Token};

#[test]
fn basic() {
    let input = b"abc";
    let mut stack = [0usize; 3];
    let cap = tokenize(input, &mut stack, &mut None);
    const OUTPUT_SIZE: usize = 3;
    assert_eq!(cap, Ok(OUTPUT_SIZE));
    let mut output = [Token::default(); OUTPUT_SIZE];
    let cap = tokenize(input, &mut stack, &mut Some(&mut output));
    assert_eq!(cap, Ok(OUTPUT_SIZE));
    assert_eq!(
        output[0],
        Token::Character(Character {
            offset: 0,
            val: b'a'
        })
    );
    assert_eq!(
        output[1],
        Token::Character(Character {
            offset: 1,
            val: b'b'
        })
    );
    assert_eq!(
        output[2],
        Token::Character(Character {
            offset: 2,
            val: b'c'
        })
    );
}

#[test]
fn empty_function_name() {
    let input = b"{}";
    let mut stack = [0usize; 2];
    let cap = tokenize(input, &mut stack, &mut None);
    const OUTPUT_SIZE: usize = 1;
    assert_eq!(cap, Ok(OUTPUT_SIZE));
    let mut output = [Token::default(); OUTPUT_SIZE];
    let cap = tokenize(input, &mut stack, &mut Some(&mut output));
    assert_eq!(cap, Ok(OUTPUT_SIZE));
    assert_eq!(
        output[0],
        Token::Function(Function {
            offset: 0,
            name: &[],
            num_args: 0,
            delta: 1,
            first_arg_delta: None
        })
    );
}

#[test]
fn function_no_args() {
    let input = b"{test}";
    let mut stack = [0usize; 6];
    let cap = tokenize(input, &mut stack, &mut None);
    const OUTPUT_SIZE: usize = 1;
    assert_eq!(cap, Ok(OUTPUT_SIZE));
    let mut output = [Token::default(); OUTPUT_SIZE];
    let cap = tokenize(input, &mut stack, &mut Some(&mut output));
    assert_eq!(cap, Ok(OUTPUT_SIZE));
    assert_eq!(
        output[0],
        Token::Function(Function {
            offset: 0,
            name: b"test",
            num_args: 0,
            delta: 1,
            first_arg_delta: None
        })
    );
}

#[test]
fn function_one_arg() {
    let input = b"{test,abc}";
    let mut stack = [0usize; 10];
    let cap = tokenize(input, &mut stack, &mut None);
    const OUTPUT_SIZE: usize = 5;
    assert_eq!(cap, Ok(OUTPUT_SIZE));
    let mut output = [Token::default(); OUTPUT_SIZE];
    let cap = tokenize(input, &mut stack, &mut Some(&mut output));
    assert_eq!(cap, Ok(OUTPUT_SIZE));
    assert_eq!(
        output[0],
        Token::Function(Function {
            offset: 0,
            name: b"test",
            num_args: 1,
            delta: 5,
            first_arg_delta: Some(4),
        })
    );
    assert_eq!(
        output[1],
        Token::Character(Character {
            offset: 6,
            val: b'a'
        }),
    );
    assert_eq!(
        output[2],
        Token::Character(Character {
            offset: 7,
            val: b'b'
        }),
    );
    assert_eq!(
        output[3],
        Token::Character(Character {
            offset: 8,
            val: b'c'
        }),
    );
    assert_eq!(
        output[4],
        Token::FunctionArgEnd(FunctionArgEnd {
            offset: 9,
            arg_delta: None
        })
    );
}

#[test]
fn function_check_stack_size() {
    // do a series of checks to ensure that the stacks don't cross (they never can)
    let input_list = [b"{,{,{,{,{,", b"{{{{{{{{{{", b"{,,,,,,,,,"];
    for input in input_list.iter() {
        let mut stack = [0usize; 10];
        let _ = tokenize(*input, &mut stack, &mut None);
        // checks a debug assert, but does not care about the output
    }
}

#[test]
fn function_two_arg() {
    let input = b"{n,1,2}";
    let mut stack = [0usize; 7];
    let cap = tokenize(input, &mut stack, &mut None);
    const OUTPUT_SIZE: usize = 5;
    assert_eq!(cap, Ok(OUTPUT_SIZE));
    let mut output = [Token::default(); OUTPUT_SIZE];
    let cap = tokenize(input, &mut stack, &mut Some(&mut output));
    assert_eq!(cap, Ok(OUTPUT_SIZE));
    assert_eq!(
        output[0],
        Token::Function(Function {
            offset: 0,
            name: b"n",
            num_args: 2,
            delta: 5,
            first_arg_delta: Some(2),
        })
    );
    assert_eq!(
        output[1],
        Token::Character(Character {
            offset: 3,
            val: b'1'
        }),
    );
    assert_eq!(
        output[2],
        Token::FunctionArgEnd(FunctionArgEnd {
            offset: 4,
            arg_delta: Some(2)
        })
    );
    assert_eq!(
        output[3],
        Token::Character(Character {
            offset: 5,
            val: b'2'
        }),
    );
    assert_eq!(
        output[4],
        Token::FunctionArgEnd(FunctionArgEnd {
            offset: 6,
            arg_delta: None
        })
    );
}

#[test]
fn function_nested() {
    let input = b"{outer,{inner,a,b},1,2}z";
    let mut stack = [0usize; 24];
    let cap = tokenize(input, &mut stack, &mut None);
    const OUTPUT_SIZE: usize = 12;
    assert_eq!(cap, Ok(OUTPUT_SIZE));
    let mut output = [Token::default(); OUTPUT_SIZE];
    let cap = tokenize(input, &mut stack, &mut Some(&mut output));
    assert_eq!(cap, Ok(OUTPUT_SIZE));
    assert_eq!(
        output[0],
        Token::Function(Function {
            offset: 0,
            name: b"outer",
            num_args: 3,
            delta: 11,
            first_arg_delta: Some(6),
        })
    );
    assert_eq!(
        output[1],
        Token::Function(Function {
            offset: 7,
            name: b"inner",
            num_args: 2,
            delta: 5,
            first_arg_delta: Some(2),
        })
    );
    assert_eq!(
        output[2],
        Token::Character(Character {
            offset: 14,
            val: b'a'
        }),
    );
    assert_eq!(
        output[3],
        Token::FunctionArgEnd(FunctionArgEnd {
            offset: 15,
            arg_delta: Some(2)
        })
    );
    assert_eq!(
        output[4],
        Token::Character(Character {
            offset: 16,
            val: b'b'
        }),
    );
    assert_eq!(
        output[5],
        Token::FunctionArgEnd(FunctionArgEnd {
            offset: 17,
            arg_delta: None
        })
    );
    assert_eq!(
        output[6],
        Token::FunctionArgEnd(FunctionArgEnd {
            offset: 18,
            arg_delta: Some(2)
        })
    );
    assert_eq!(
        output[7],
        Token::Character(Character {
            offset: 19,
            val: b'1'
        }),
    );
    assert_eq!(
        output[8],
        Token::FunctionArgEnd(FunctionArgEnd {
            offset: 20,
            arg_delta: Some(2)
        })
    );
    assert_eq!(
        output[9],
        Token::Character(Character {
            offset: 21,
            val: b'2'
        }),
    );
    assert_eq!(
        output[10],
        Token::FunctionArgEnd(FunctionArgEnd {
            offset: 22,
            arg_delta: None
        })
    );
    assert_eq!(
        output[11],
        Token::Character(Character {
            offset: 23,
            val: b'z'
        }),
    );
}

#[test]
fn empty_arg() {
    let input = b"{,}";
    let mut stack = [0usize; 3];
    let cap = tokenize(input, &mut stack, &mut None);
    const OUTPUT_SIZE: usize = 2;
    assert_eq!(cap, Ok(OUTPUT_SIZE));
    let mut output = [Token::default(); OUTPUT_SIZE];
    let cap = tokenize(input, &mut stack, &mut Some(&mut output));
    assert_eq!(cap, Ok(OUTPUT_SIZE));
    assert_eq!(
        output[0],
        Token::Function(Function {
            offset: 0,
            name: &[],
            num_args: 1,
            delta: 2,
            first_arg_delta: Some(1),
        })
    );
    assert_eq!(
        output[1],
        Token::FunctionArgEnd(FunctionArgEnd {
            offset: 2,
            arg_delta: None
        })
    );
}

#[test]
fn escapes() {
    let input = b",\\{{a,\\,}";
    let mut stack = [0usize; 9];
    let cap = tokenize(input, &mut stack, &mut None);
    const OUTPUT_SIZE: usize = 5;
    assert_eq!(cap, Ok(OUTPUT_SIZE));
    let mut output = [Token::default(); OUTPUT_SIZE];
    let cap = tokenize(input, &mut stack, &mut Some(&mut output));
    assert_eq!(cap, Ok(OUTPUT_SIZE));
    assert_eq!(
        output[0],
        Token::Character(Character {
            offset: 0,
            val: b','
        }),
    );
    assert_eq!(
        output[1],
        Token::Character(Character {
            offset: 1,
            val: b'{'
        }),
    );
    assert_eq!(
        output[2],
        Token::Function(Function {
            offset: 3,
            name: b"a",
            num_args: 1,
            delta: 3,
            first_arg_delta: Some(2),
        })
    );
    assert_eq!(
        output[3],
        Token::Character(Character {
            offset: 6,
            val: b','
        }),
    );
    assert_eq!(
        output[4],
        Token::FunctionArgEnd(FunctionArgEnd {
            offset: 8,
            arg_delta: None
        })
    );
}

#[test]
fn non_escapable_escapes() {
    // first two are passed through as is. third is escapable
    let input = b"\\a\\n\\{";
    let mut stack = [0usize; 6];
    let cap = tokenize(input, &mut stack, &mut None);
    const OUTPUT_SIZE: usize = 5;
    assert_eq!(cap, Ok(OUTPUT_SIZE));
    let mut output = [Token::default(); OUTPUT_SIZE];
    let cap = tokenize(input, &mut stack, &mut Some(&mut output));
    assert_eq!(cap, Ok(OUTPUT_SIZE));
    assert_eq!(
        output[0],
        Token::Character(Character {
            offset: 0,
            val: b'\\'
        }),
    );
    assert_eq!(
        output[1],
        Token::Character(Character {
            offset: 1,
            val: b'a'
        }),
    );
    assert_eq!(
        output[2],
        Token::Character(Character {
            offset: 2,
            val: b'\\'
        }),
    );
    assert_eq!(
        output[3],
        Token::Character(Character {
            offset: 3,
            val: b'n'
        }),
    );
    assert_eq!(
        output[4],
        Token::Character(Character {
            offset: 4,
            val: b'{'
        }),
    );
}

#[test]
fn unclosed_function_name() {
    let input = b"{hi";
    let mut stack = [0usize; 3];
    let cap = tokenize(input, &mut stack, &mut None);
    assert!(cap.is_err());
}

#[test]
fn unclosed_function() {
    let input = b"{hi,ab";
    let mut stack = [0usize; 6];
    let cap = tokenize(input, &mut stack, &mut None);
    const OUTPUT_SIZE: usize = 3;
    assert_eq!(cap, Ok(OUTPUT_SIZE));
    let mut output = [Token::default(); OUTPUT_SIZE];
    let cap = tokenize(input, &mut stack, &mut Some(&mut output));
    assert!(cap.is_err());
}

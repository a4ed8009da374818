//! A two-pass lexer for text that embeds function calls written
//! `{name,arg,arg,...}`, with `\` escaping the four control bytes.
//!
//! The scan records structure and byte offsets only; it allocates nothing.
//! Call [`tokenize`] once without an output buffer to learn how many tokens
//! the input gives, then once more with a buffer of exactly that length.

pub mod model;
pub mod structure;

use vstd::prelude::*;
use vstd::slice::slice_subrange;
use crate::model::{
    ScanState, TokenModel, final_state, initial_state, lemma_scan_wf, lemma_step_wf, offset_of,
    scan, state_wf, step, token_count, tokens_of,
};

verus! {

/// indicates the position in the input string in which something occurred
type InputOffset = usize;

/// indicates the number of tokens in the output that comprise something. always greater than 0
type OutputDelta = usize;

#[derive(Debug, Clone, Copy, PartialEq, Eq)]
pub struct Function<'a> {
    pub offset: InputOffset,
    pub name: &'a [u8],
    /// how many arguments does this function have
    pub num_args: usize,
    /// number of tokens to jump forward to be one past this function
    pub delta: OutputDelta,
    /// the number of tokens to jump forward to be at the end arg token for the first argument
    pub first_arg_delta: Option<OutputDelta>,
}

impl<'a> Default for Function<'a> {
    fn default() -> (r: Self)
        ensures
            r.offset == 0,
            r.name@.len() == 0,
            r.num_args == 0,
            r.delta == 0,
            r.first_arg_delta is None,
    {
        Self { offset: 0, name: &[], num_args: 0, delta: 0, first_arg_delta: None }
    }
}

#[derive(Debug, Clone, Copy, PartialEq, Eq)]
pub struct FunctionArgEnd {
    pub offset: InputOffset,
    /// the number of tokens to jump forward to be at the end arg token for the next argument
    pub arg_delta: Option<OutputDelta>,
}

impl Default for FunctionArgEnd {
    fn default() -> (r: Self)
        ensures
            r.offset == 0,
            r.arg_delta is None,
    {
        Self { offset: 0, arg_delta: None }
    }
}

#[derive(Debug, Clone, Copy, PartialEq, Eq)]
pub struct Character {
    pub offset: InputOffset,
    pub val: u8,
}

#[derive(Debug, Clone, Copy, PartialEq, Eq)]
pub enum Token<'a> {
    /// fills a buffer before the filling pass writes it; never part of a result
    Invalid,
    Character(Character),
    Function(Function<'a>),
    FunctionArgEnd(FunctionArgEnd),
}

impl<'a> Default for Token<'a> {
    fn default() -> (r: Self)
        ensures
            r is Invalid,
    {
        Token::Invalid
    }
}

pub open spec fn opt_nat(o: Option<usize>) -> Option<nat> {
    match o {
        Some(d) => Some(d as nat),
        None => None,
    }
}

impl<'a> View for Token<'a> {
    type V = TokenModel;

    open spec fn view(&self) -> TokenModel {
        match *self {
            Token::Invalid => TokenModel::Invalid,
            Token::Character(c) => TokenModel::Character { offset: c.offset as nat, val: c.val },
            Token::Function(f) => TokenModel::Function {
                offset: f.offset as nat,
                name: f.name@,
                num_args: f.num_args as nat,
                delta: f.delta as nat,
                first_arg_delta: opt_nat(f.first_arg_delta),
            },
            Token::FunctionArgEnd(e) => TokenModel::FunctionArgEnd {
                offset: e.offset as nat,
                arg_delta: opt_nat(e.arg_delta),
            },
        }
    }
}

/// What the sizing pass (no output buffer) returns: the token count, unless
/// a function name is still open at the end of the input.
pub open spec fn sizing_result(input: Seq<u8>) -> Result<usize, (usize, &'static str)> {
    let s = final_state(input);
    match s.name_begin {
        Some(v) => Err((v as usize, "function name wasn't completed")),
        None => Ok(s.tokens.len() as usize),
    }
}

/// What the filling pass returns: as the sizing pass, and besides an error at
/// the innermost function that saw an argument but was never closed.
pub open spec fn filling_result(input: Seq<u8>) -> Result<usize, (usize, &'static str)> {
    let s = final_state(input);
    match s.name_begin {
        Some(v) => Err((v as usize, "function name wasn't completed")),
        None => if s.open_fns.len() > 0 {
            Err((offset_of(s.tokens[s.open_fns.last() as int]) as usize, "unclosed function"))
        } else {
            Ok(s.tokens.len() as usize)
        },
    }
}

fn send_output<'a>(token: Token<'a>, output_index: &mut usize, out: &mut [Token<'a>], fill: bool)
    requires
        *old(output_index) < usize::MAX,
        fill ==> *old(output_index) < old(out)@.len(),
    ensures
        *final(output_index) == *old(output_index) + 1,
        fill ==> final(out)@ == old(out)@.update(*old(output_index) as int, token),
        !fill ==> final(out)@ == old(out)@,
{
    if fill {
        out[*output_index] = token;
    }
    *output_index = *output_index + 1;
}

/// One pass over the input. With `fill` the tokens go to `out`, which then
/// has exactly the length of the token stream; without it `out` is left
/// alone and only counted.
///
/// `stack` is used as two stacks that grow toward each other: from the
/// front the output indices of the open functions, from the back those of
/// their pending argument markers.
fn scan_pass<'a>(input: &'a [u8], stack: &mut [usize], out: &mut [Token<'a>], fill: bool) -> (r:
    Result<usize, (usize, &'static str)>)
    requires
        old(stack)@.len() == input@.len(),
        fill ==> old(out)@.len() == token_count(input@),
    ensures
        final(stack)@.len() == old(stack)@.len(),
        final(out)@.len() == old(out)@.len(),
        !fill ==> r == sizing_result(input@),
        fill ==> r == filling_result(input@),
        fill && r is Ok ==> forall|k: int|
            0 <= k < final(out)@.len() ==> (#[trigger] final(out)@[k])@ == tokens_of(input@)[k],
{
    let ghost inp = input@;
    let len = input.len();
    let ghost out_len = out@.len();
    let mut output_index: usize = 0;
    let mut escaped = false;
    let mut function_stack_index: usize = 0;
    let mut function_arg_begin_stack_index: usize = stack.len();
    let mut function_name_begin: Option<usize> = None;
    let ghost mut s: ScanState = initial_state();
    let mut i: usize = 0;
    while i < len
        invariant
            len == inp.len(),
            inp == input@,
            stack@.len() == len,
            out@.len() == out_len,
            fill ==> out_len == token_count(inp),
            i <= len,
            s == scan(inp, i as nat),
            state_wf(s, i as nat),
            output_index == s.tokens.len(),
            escaped == s.escaped,
            match function_name_begin {
                Some(v) => s.name_begin == Some(v as nat),
                None => s.name_begin is None,
            },
            function_stack_index == s.open_fns.len(),
            function_arg_begin_stack_index == len - s.pending.len(),
            forall|k: int| 0 <= k < s.open_fns.len() ==> stack@[k] as nat == #[trigger] s.open_fns[k],
            forall|k: int|
                0 <= k < s.pending.len() ==> stack@[len - 1 - k] as nat == #[trigger] s.pending[k],
            fill ==> forall|k: int|
                0 <= k < s.tokens.len() && k < out@.len() ==> (#[trigger] out@[k])@ == s.tokens[k],
        decreases len - i,
    {
        let ch = input[i];
        let ghost next = step(s, inp, i as nat);
        proof {
            lemma_step_wf(s, inp, i as nat);
            lemma_scan_wf(inp, (i + 1) as nat, len as nat);
        }
        match function_name_begin {
            None => {
                if escaped {
                    if ch == 123u8 || ch == 125u8 || ch == 44u8 || ch == 92u8 {
                        // these four bytes can be escaped
                        send_output(
                            Token::Character(Character { offset: i - 1, val: ch }),
                            &mut output_index,
                            out,
                            fill,
                        );
                    } else {
                        // any other byte is not escaped: both go through literally
                        send_output(
                            Token::Character(Character { offset: i - 1, val: 92u8 }),
                            &mut output_index,
                            out,
                            fill,
                        );
                        send_output(
                            Token::Character(Character { offset: i, val: ch }),
                            &mut output_index,
                            out,
                            fill,
                        );
                    }
                    escaped = false;
                } else if ch == 92u8 {
                    escaped = true;
                } else if ch == 123u8 {
                    function_name_begin = Some(i + 1);
                } else if function_stack_index == 0 || (ch != 44u8 && ch != 125u8) {
                    send_output(
                        Token::Character(Character { offset: i, val: ch }),
                        &mut output_index,
                        out,
                        fill,
                    );
                } else {
                    assert(stack@[len - 1 - (s.pending.len() - 1)] as nat == s.pending[s.pending.len() - 1]);
                    assert(stack@[function_stack_index - 1] as nat == s.open_fns[s.open_fns.len() - 1]);
                    // count the argument
                    let fidx = stack[function_stack_index - 1];
                    if fill {
                        match out[fidx] {
                            Token::Function(mut function) => {
                                function.num_args = function.num_args + 1;
                                out[fidx] = Token::Function(function);
                            },
                            _ => {
                                return Err((0, "internal error"));
                            },
                        }
                    }
                    // link the pending marker to the end marker about to be written
                    let index = stack[function_arg_begin_stack_index];
                    if fill {
                        match out[index] {
                            Token::Function(mut function) => {
                                function.first_arg_delta = Some(output_index - index);
                                out[index] = Token::Function(function);
                            },
                            Token::FunctionArgEnd(mut function_arg_end) => {
                                function_arg_end.arg_delta = Some(output_index - index);
                                out[index] = Token::FunctionArgEnd(function_arg_end);
                            },
                            _ => {
                                return Err((0, "internal error"));
                            },
                        }
                    }
                    stack[function_arg_begin_stack_index] = output_index;
                    send_output(
                        Token::FunctionArgEnd(FunctionArgEnd { offset: i, arg_delta: None }),
                        &mut output_index,
                        out,
                        fill,
                    );
                    if ch == 125u8 {
                        // the function ended: pop it
                        function_stack_index = function_stack_index - 1;
                        function_arg_begin_stack_index = function_arg_begin_stack_index + 1;
                        if fill {
                            let index = stack[function_stack_index];
                            match out[index] {
                                Token::Function(mut function) => {
                                    function.delta = output_index - index;
                                    out[index] = Token::Function(function);
                                },
                                _ => {
                                    return Err((0, "internal error"));
                                },
                            }
                        }
                    }
                }
            },
            Some(v) => {
                if ch == 44u8 || ch == 125u8 {
                    // the name ends here
                    let mut function = Function {
                        offset: v - 1,
                        name: slice_subrange(input, v, i),
                        num_args: 0,
                        delta: 0,
                        first_arg_delta: None,
                    };
                    function_name_begin = None;
                    if ch == 44u8 {
                        stack[function_stack_index] = output_index;
                        function_stack_index = function_stack_index + 1;
                        function_arg_begin_stack_index = function_arg_begin_stack_index - 1;
                        stack[function_arg_begin_stack_index] = output_index;
                        send_output(Token::Function(function), &mut output_index, out, fill);
                    } else {
                        // not only the name but the whole function is complete
                        function.delta = 1;
                        send_output(Token::Function(function), &mut output_index, out, fill);
                    }
                }
            },
        }
        proof {
            s = next;
        }
        i = i + 1;
    }
    proof {
        lemma_scan_wf(inp, len as nat, len as nat);
    }
    if let Some(v) = function_name_begin {
        return Err((v, "function name wasn't completed"));
    }
    if function_stack_index != 0 && fill {
        assert(stack@[function_stack_index - 1] as nat == s.open_fns[s.open_fns.len() - 1]);
        let index = stack[function_stack_index - 1];
        match out[index] {
            Token::Function(function) => {
                return Err((function.offset, "unclosed function"));
            },
            _ => {
                return Err((0, "internal error"));
            },
        }
    }
    Ok(output_index)
}

/// Splits the input into tokens.
///
/// Call it twice. Without an output buffer it returns how many tokens the
/// input gives; with a buffer of exactly that length it writes them. Check
/// both results: only the filling pass finds a function left unclosed. On
/// an error the result holds the offending input offset and the reason.
/// The buffer is moved out of `output`, which is `None` afterwards; the
/// tokens stay in the storage that the buffer borrowed.
///
/// `stack` is scratch space and must be as long as the input.
pub fn tokenize<'a>(
    input: &'a [u8],
    stack: &mut [usize],
    output: &mut Option<&mut [Token<'a>]>,
) -> (r: Result<usize, (usize, &'static str)>)
    requires
        old(stack)@.len() == input@.len(),
        old(output).is_some() ==> old(output).unwrap()@.len() == token_count(input@),
    ensures
        final(stack)@.len() == old(stack)@.len(),
        final(output).is_none(),
        old(output).is_none() ==> r == sizing_result(input@),
        old(output).is_some() ==> {
            &&& r == filling_result(input@)
            &&& final(old(output).unwrap())@.len() == old(output).unwrap()@.len()
            &&& r is Ok ==> forall|k: int|
                0 <= k < token_count(input@) ==> (#[trigger] final(old(output).unwrap())@[k])@
                    == tokens_of(input@)[k]
        },
{
    match output.take() {
        Some(o) => scan_pass(input, stack, o, true),
        None => {
            let mut no_output: [Token<'a>; 0] = [];
            scan_pass(input, stack, &mut no_output, false)
        },
    }
}

/// Runs both passes with buffers of its own and returns the tokens, or the
/// error that the filling pass reports.
pub fn tokenize_to_vec<'a>(input: &'a [u8]) -> (r: Result<Vec<Token<'a>>, (usize, &'static str)>)
    ensures
        match filling_result(input@) {
            Ok(_) => match r {
                Ok(tokens) => {
                    &&& tokens@.len() == token_count(input@)
                    &&& forall|k: int|
                        0 <= k < tokens@.len() ==> (#[trigger] tokens@[k])@ == tokens_of(input@)[k]
                },
                Err(_) => false,
            },
            Err(e) => r == Err::<Vec<Token<'a>>, (usize, &'static str)>(e),
        },
{
    let mut stack: Vec<usize> = vec![0usize; input.len()];
    let n = match tokenize(input, stack.as_mut_slice(), &mut None) {
        Ok(n) => n,
        Err(e) => {
            return Err(e);
        },
    };
    proof {
        lemma_scan_wf(input@, 0, input@.len());
    }
    let mut output: Vec<Token<'a>> = vec![Token::Invalid; n];
    let mut slot: Option<&mut [Token<'a>]> = Some(output.as_mut_slice());
    match tokenize(input, stack.as_mut_slice(), &mut slot) {
        Ok(_) => Ok(output),
        Err(e) => Err(e),
    }
}

} // verus!

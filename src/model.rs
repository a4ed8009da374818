//! The scan as a state machine over input prefixes: the meaning that
//! `tokenize`'s contract is stated in.
use vstd::prelude::*;

verus! {

/// A token as the contracts see it: offsets and deltas as naturals, a
/// function's name as the bytes it spans.
pub enum TokenModel {
    Invalid,
    Character { offset: nat, val: u8 },
    Function {
        offset: nat,
        name: Seq<u8>,
        num_args: nat,
        delta: nat,
        first_arg_delta: Option<nat>,
    },
    FunctionArgEnd { offset: nat, arg_delta: Option<nat> },
}

/// Where the scan stands after a prefix of the input.
///
/// `open_fns` holds, innermost last, the output indices of the functions
/// that have seen an argument separator and are not closed yet; `pending`
/// holds, one per open function, the index of the marker whose
/// `first_arg_delta` / `arg_delta` is still unset.
pub struct ScanState {
    pub tokens: Seq<TokenModel>,
    pub escaped: bool,
    pub name_begin: Option<nat>,
    pub open_fns: Seq<nat>,
    pub pending: Seq<nat>,
    /// For each token, the index of the innermost open function when it was
    /// written, or -1 at top level.
    pub parent: Seq<int>,
}

/// The four bytes that a backslash escapes.
pub open spec fn is_control(c: u8) -> bool {
    c == 123u8 || c == 125u8 || c == 44u8 || c == 92u8
}

pub open spec fn character(offset: nat, val: u8) -> TokenModel {
    TokenModel::Character { offset, val }
}

pub open spec fn with_arg_added(t: TokenModel) -> TokenModel {
    match t {
        TokenModel::Function { offset, name, num_args, delta, first_arg_delta } =>
            TokenModel::Function { offset, name, num_args: num_args + 1, delta, first_arg_delta },
        _ => t,
    }
}

pub open spec fn with_next_arg(t: TokenModel, d: nat) -> TokenModel {
    match t {
        TokenModel::Function { offset, name, num_args, delta, first_arg_delta: _ } =>
            TokenModel::Function { offset, name, num_args, delta, first_arg_delta: Some(d) },
        TokenModel::FunctionArgEnd { offset, arg_delta: _ } =>
            TokenModel::FunctionArgEnd { offset, arg_delta: Some(d) },
        _ => t,
    }
}

pub open spec fn with_delta(t: TokenModel, d: nat) -> TokenModel {
    match t {
        TokenModel::Function { offset, name, num_args, delta: _, first_arg_delta } =>
            TokenModel::Function { offset, name, num_args, delta: d, first_arg_delta },
        _ => t,
    }
}

pub open spec fn offset_of(t: TokenModel) -> nat {
    match t {
        TokenModel::Invalid => 0,
        TokenModel::Character { offset, .. } => offset,
        TokenModel::Function { offset, .. } => offset,
        TokenModel::FunctionArgEnd { offset, .. } => offset,
    }
}

pub open spec fn initial_state() -> ScanState {
    ScanState {
        tokens: Seq::empty(),
        escaped: false,
        name_begin: None,
        open_fns: Seq::empty(),
        pending: Seq::empty(),
        parent: Seq::empty(),
    }
}

/// The innermost open function, or -1.
pub open spec fn top(s: ScanState) -> int {
    if s.open_fns.len() > 0 {
        s.open_fns.last() as int
    } else {
        -1
    }
}

/// A `,` or `}` that ends an argument of the innermost open function: count
/// the argument, link the pending marker to the new end marker, and on `}`
/// close the function.
pub open spec fn end_argument(s: ScanState, c: u8, i: nat) -> ScanState {
    let f = s.open_fns.last();
    let p = s.pending.last();
    let n = s.tokens.len();
    let t1 = s.tokens.update(f as int, with_arg_added(s.tokens[f as int]));
    let t2 = t1.update(p as int, with_next_arg(t1[p as int], (n - p) as nat));
    let t3 = t2.push(TokenModel::FunctionArgEnd { offset: i, arg_delta: None });
    if c == 125u8 {
        ScanState {
            tokens: t3.update(f as int, with_delta(t3[f as int], (n + 1 - f) as nat)),
            open_fns: s.open_fns.drop_last(),
            pending: s.pending.drop_last(),
            parent: s.parent.push(top(s)),
            ..s
        }
    } else {
        ScanState {
            tokens: t3,
            pending: s.pending.drop_last().push(n),
            parent: s.parent.push(top(s)),
            ..s
        }
    }
}

/// A `,` or `}` that ends the name begun at `v`: emit the function, and on
/// `,` open it for arguments.
pub open spec fn end_name(s: ScanState, input: Seq<u8>, v: nat, c: u8, i: nat) -> ScanState {
    let n = s.tokens.len();
    let f = TokenModel::Function {
        offset: (v - 1) as nat,
        name: input.subrange(v as int, i as int),
        num_args: 0,
        delta: if c == 125u8 { 1 } else { 0 },
        first_arg_delta: None,
    };
    if c == 44u8 {
        ScanState {
            tokens: s.tokens.push(f),
            name_begin: None,
            open_fns: s.open_fns.push(n),
            pending: s.pending.push(n),
            parent: s.parent.push(top(s)),
            ..s
        }
    } else {
        ScanState {
            tokens: s.tokens.push(f),
            name_begin: None,
            parent: s.parent.push(top(s)),
            ..s
        }
    }
}

/// The scan's move on byte `i` of the input.
pub open spec fn step(s: ScanState, input: Seq<u8>, i: nat) -> ScanState {
    let c = input[i as int];
    match s.name_begin {
        None => if s.escaped {
            if is_control(c) {
                ScanState {
                    tokens: s.tokens.push(character((i - 1) as nat, c)),
                    escaped: false,
                    parent: s.parent.push(top(s)),
                    ..s
                }
            } else {
                ScanState {
                    tokens: s.tokens.push(character((i - 1) as nat, 92u8)).push(character(i, c)),
                    escaped: false,
                    parent: s.parent.push(top(s)).push(top(s)),
                    ..s
                }
            }
        } else if c == 92u8 {
            ScanState { escaped: true, ..s }
        } else if c == 123u8 {
            ScanState { name_begin: Some(i + 1), ..s }
        } else if s.open_fns.len() == 0 || (c != 44u8 && c != 125u8) {
            ScanState {
                tokens: s.tokens.push(character(i, c)),
                parent: s.parent.push(top(s)),
                ..s
            }
        } else {
            end_argument(s, c, i)
        },
        Some(v) => if c == 44u8 || c == 125u8 {
            end_name(s, input, v, c, i)
        } else {
            s
        },
    }
}

/// The state after the first `n` bytes of the input.
pub open spec fn scan(input: Seq<u8>, n: nat) -> ScanState
    recommends
        n <= input.len(),
    decreases n,
{
    if n == 0 {
        initial_state()
    } else {
        step(scan(input, (n - 1) as nat), input, (n - 1) as nat)
    }
}

pub open spec fn final_state(input: Seq<u8>) -> ScanState {
    scan(input, input.len())
}

/// The token stream of the input.
pub open spec fn tokens_of(input: Seq<u8>) -> Seq<TokenModel> {
    final_state(input).tokens
}

/// How many tokens the input gives: the length a filling buffer must have.
pub open spec fn token_count(input: Seq<u8>) -> nat {
    tokens_of(input).len()
}

pub open spec fn is_function(t: TokenModel) -> bool {
    t is Function
}

pub open spec fn is_marker(t: TokenModel) -> bool {
    t is Function || t is FunctionArgEnd
}

/// The facts about a state reached after `i` bytes that the scan relies on.
pub open spec fn state_wf(s: ScanState, i: nat) -> bool {
    &&& s.tokens.len() + (if s.escaped { 1nat } else { 0nat }) <= i
    &&& s.open_fns.len() == s.pending.len()
    &&& s.parent.len() == s.tokens.len()
    &&& 2 * s.open_fns.len() + (if s.name_begin is Some { 1nat } else { 0nat }) <= i
    &&& s.escaped ==> s.name_begin is None && i >= 1
    &&& s.name_begin matches Some(v) ==> 1 <= v <= i
    &&& forall|k: int|
        0 <= k < s.open_fns.len() ==> #[trigger] s.open_fns[k] < s.tokens.len()
            && is_function(s.tokens[s.open_fns[k] as int])
    &&& forall|k: int|
        0 <= k < s.pending.len() ==> #[trigger] s.pending[k] < s.tokens.len()
            && is_marker(s.tokens[s.pending[k] as int])
    &&& forall|k: int| 0 <= k < s.tokens.len() ==> match #[trigger] s.tokens[k] {
        TokenModel::Function { num_args, .. } => num_args < s.tokens.len(),
        TokenModel::Invalid => false,
        _ => true,
    }
}

pub proof fn lemma_step_wf(s: ScanState, input: Seq<u8>, i: nat)
    requires
        state_wf(s, i),
        i < input.len(),
    ensures
        state_wf(step(s, input, i), i + 1),
        s.tokens.len() <= step(s, input, i).tokens.len(),
{
    let t = step(s, input, i);
    let c = input[i as int];
    if s.name_begin is None && !s.escaped && c != 92u8 && c != 123u8 && !(s.open_fns.len() == 0
        || (c != 44u8 && c != 125u8)) {
        assert(is_function(s.tokens[s.open_fns[s.open_fns.len() - 1] as int]));
        assert(is_marker(s.tokens[s.pending[s.pending.len() - 1] as int]));
        assert forall|k: int| 0 <= k < t.open_fns.len() implies #[trigger] t.open_fns[k] < t.tokens.len()
            && is_function(t.tokens[t.open_fns[k] as int]) by {
            assert(s.open_fns[k] == t.open_fns[k]);
            assert(is_function(s.tokens[s.open_fns[k] as int]));
        }
        assert forall|k: int| 0 <= k < t.pending.len() implies #[trigger] t.pending[k] < t.tokens.len()
            && is_marker(t.tokens[t.pending[k] as int]) by {
            if k < s.pending.len() - 1 {
                assert(s.pending[k] == t.pending[k]);
                assert(is_marker(s.tokens[s.pending[k] as int]));
            }
        }
        assert forall|k: int| 0 <= k < t.tokens.len() implies match #[trigger] t.tokens[k] {
            TokenModel::Function { num_args, .. } => num_args < t.tokens.len(),
            TokenModel::Invalid => false,
            _ => true,
        } by {
            if k < s.tokens.len() {
                let _ = s.tokens[k];
            }
        }
        assert(state_wf(t, i + 1));
    } else if s.name_begin is Some && (c == 44u8 || c == 125u8) {
        assert forall|k: int| 0 <= k < t.open_fns.len() implies #[trigger] t.open_fns[k] < t.tokens.len()
            && is_function(t.tokens[t.open_fns[k] as int]) by {
            if k < s.open_fns.len() {
                assert(s.open_fns[k] == t.open_fns[k]);
                assert(is_function(s.tokens[s.open_fns[k] as int]));
            }
        }
        assert forall|k: int| 0 <= k < t.pending.len() implies #[trigger] t.pending[k] < t.tokens.len()
            && is_marker(t.tokens[t.pending[k] as int]) by {
            if k < s.pending.len() {
                assert(s.pending[k] == t.pending[k]);
                assert(is_marker(s.tokens[s.pending[k] as int]));
            }
        }
        assert forall|k: int| 0 <= k < t.tokens.len() implies match #[trigger] t.tokens[k] {
            TokenModel::Function { num_args, .. } => num_args < t.tokens.len(),
            TokenModel::Invalid => false,
            _ => true,
        } by {
            if k < s.tokens.len() {
                let _ = s.tokens[k];
            }
        }
        assert(state_wf(t, i + 1));
    } else {
        assert forall|k: int| 0 <= k < t.open_fns.len() implies #[trigger] t.open_fns[k] < t.tokens.len()
            && is_function(t.tokens[t.open_fns[k] as int]) by {
            assert(is_function(s.tokens[s.open_fns[k] as int]));
        }
        assert forall|k: int| 0 <= k < t.pending.len() implies #[trigger] t.pending[k] < t.tokens.len()
            && is_marker(t.tokens[t.pending[k] as int]) by {
            assert(is_marker(s.tokens[s.pending[k] as int]));
        }
        assert forall|k: int| 0 <= k < t.tokens.len() implies match #[trigger] t.tokens[k] {
            TokenModel::Function { num_args, .. } => num_args < t.tokens.len(),
            TokenModel::Invalid => false,
            _ => true,
        } by {
            if k < s.tokens.len() {
                let _ = s.tokens[k];
            }
        }
        assert(state_wf(t, i + 1));
    }
}

/// Every state that the scan reaches is well formed, and the token stream
/// only grows.
pub proof fn lemma_scan_wf(input: Seq<u8>, i: nat, j: nat)
    requires
        i <= j <= input.len(),
    ensures
        state_wf(scan(input, j), j),
        scan(input, i).tokens.len() <= scan(input, j).tokens.len(),
    decreases j,
{
    if j > 0 {
        if i == j {
            lemma_scan_wf(input, 0, (j - 1) as nat);
        } else {
            lemma_scan_wf(input, i, (j - 1) as nat);
        }
        lemma_step_wf(scan(input, (j - 1) as nat), input, (j - 1) as nat);
    }
}

} // verus!

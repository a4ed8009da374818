//! Facts about the token stream as a whole, proved over the scan model.

use vstd::prelude::*;
use crate::model::{
    ScanState, TokenModel, end_argument, final_state, is_function, offset_of, lemma_scan_wf, lemma_step_wf,
    scan, state_wf, step, token_count, tokens_of, top, with_arg_added, with_delta, with_next_arg,
};
use crate::{filling_result, sizing_result};

verus! {

/// Every token of the stream is a real one: the sentinel that pre-fills a
/// buffer never appears in a result.
pub proof fn lemma_no_invalid_tokens(input: Seq<u8>)
    ensures
        forall|k: int| 0 <= k < token_count(input) ==> !(#[trigger] tokens_of(input)[k] is Invalid),
{
    lemma_scan_wf(input, 0, input.len());
    let s = final_state(input);
    assert forall|k: int| 0 <= k < token_count(input) implies !(#[trigger] tokens_of(input)[k] is Invalid) by {
        let _ = s.tokens[k];
    }
}

/// The input position that every token written so far lies before.
pub open spec fn offset_bound(s: ScanState, i: nat) -> int {
    if s.escaped {
        i - 1
    } else {
        match s.name_begin {
            Some(v) => v - 1,
            None => i as int,
        }
    }
}

pub open spec fn offsets_inv(s: ScanState, i: nat) -> bool {
    &&& forall|a: int, b: int|
        0 <= a < b < s.tokens.len() ==> offset_of(#[trigger] s.tokens[a]) <= offset_of(
            #[trigger] s.tokens[b],
        )
    &&& forall|a: int| 0 <= a < s.tokens.len() ==> offset_of(#[trigger] s.tokens[a]) < offset_bound(s, i)
}

proof fn lemma_step_offsets(s: ScanState, input: Seq<u8>, i: nat)
    requires
        state_wf(s, i),
        offsets_inv(s, i),
        i < input.len(),
    ensures
        offsets_inv(step(s, input, i), i + 1),
{
    lemma_step_wf(s, input, i);
    let t = step(s, input, i);
    let n = s.tokens.len() as int;
    // patches leave offsets as they were
    assert forall|a: int| 0 <= a < n implies offset_of(#[trigger] t.tokens[a]) == offset_of(
        s.tokens[a],
    ) by {
        let x = s.tokens[a];
        assert(forall|d: nat| offset_of(#[trigger] with_next_arg(x, d)) == offset_of(x));
        assert(forall|d: nat| offset_of(#[trigger] with_delta(x, d)) == offset_of(x));
        assert(forall|d: nat| offset_of(#[trigger] with_next_arg(with_arg_added(x), d)) == offset_of(x));
    }
    assert forall|a: int| n <= a < t.tokens.len() implies offset_bound(s, i) <= offset_of(
        #[trigger] t.tokens[a],
    ) && offset_of(t.tokens[a]) < offset_bound(t, i + 1) by {}
    assert forall|a: int, b: int| 0 <= a < b < t.tokens.len() implies offset_of(
        #[trigger] t.tokens[a],
    ) <= offset_of(#[trigger] t.tokens[b]) by {
        if b < n {
            let _ = s.tokens[a];
            let _ = s.tokens[b];
        } else if a < n {
            let _ = s.tokens[a];
        }
    }
    assert forall|a: int| 0 <= a < t.tokens.len() implies offset_of(#[trigger] t.tokens[a])
        < offset_bound(t, i + 1) by {
        if a < n {
            let _ = s.tokens[a];
        }
    }
}

proof fn lemma_scan_offsets(input: Seq<u8>, n: nat)
    requires
        n <= input.len(),
    ensures
        offsets_inv(scan(input, n), n),
    decreases n,
{
    if n > 0 {
        lemma_scan_offsets(input, (n - 1) as nat);
        lemma_scan_wf(input, 0, (n - 1) as nat);
        lemma_step_offsets(scan(input, (n - 1) as nat), input, (n - 1) as nat);
    }
}

/// Token offsets never decrease along the stream, and each lies inside the
/// input.
pub proof fn lemma_offsets_ordered(input: Seq<u8>)
    ensures
        forall|a: int, b: int|
            0 <= a < b < token_count(input) ==> offset_of(#[trigger] tokens_of(input)[a]) <= offset_of(
                #[trigger] tokens_of(input)[b],
            ),
        forall|a: int| 0 <= a < token_count(input) ==> offset_of(#[trigger] tokens_of(input)[a]) < input.len(),
{
    lemma_scan_offsets(input, input.len());
    lemma_scan_wf(input, 0, input.len());
    let s = final_state(input);
    assert(offset_bound(s, input.len()) <= input.len());
}

/// Both passes agree: whenever the filling pass succeeds, the sizing pass
/// returned the same count, which is the length of the token stream.
pub proof fn lemma_passes_agree(input: Seq<u8>)
    ensures
        filling_result(input) is Ok ==> {
            &&& sizing_result(input) == filling_result(input)
            &&& filling_result(input) == Ok::<usize, (usize, &'static str)>(
                token_count(input) as usize,
            )
        },
{
}

/// A function token with no arguments yet has no first argument and is
/// either complete with a delta of one or still open with a delta of zero;
/// one with arguments spans at least itself and an end marker, or is open.
pub open spec fn arity_inv(s: ScanState) -> bool {
    &&& forall|k: int|
        0 <= k < s.tokens.len() ==> match #[trigger] s.tokens[k] {
            TokenModel::Function { num_args, delta, first_arg_delta, .. } => {
                &&& num_args == 0 <==> first_arg_delta is None
                &&& s.open_fns.contains(k as nat) ==> delta == 0
                &&& !s.open_fns.contains(k as nat) ==> (num_args == 0 <==> delta == 1) && delta >= 1
            },
            _ => true,
        }
    &&& forall|j: int|
        0 <= j < s.pending.len() ==> is_function(s.tokens[#[trigger] s.pending[j] as int])
            ==> s.pending[j] == s.open_fns[j]
    &&& forall|j: int|
        0 <= j < s.open_fns.len() ==> num_args_of(s.tokens[#[trigger] s.open_fns[j] as int]) == 0
            ==> s.pending[j] == s.open_fns[j]
    &&& forall|a: int, b: int|
        0 <= a < b < s.open_fns.len() ==> #[trigger] s.open_fns[a] < #[trigger] s.open_fns[b]
}

pub open spec fn num_args_of(t: TokenModel) -> nat {
    match t {
        TokenModel::Function { num_args, .. } => num_args,
        _ => 0,
    }
}

proof fn lemma_step_arity(s: ScanState, input: Seq<u8>, i: nat)
    requires
        state_wf(s, i),
        arity_inv(s),
        i < input.len(),
    ensures
        arity_inv(step(s, input, i)),
{
    lemma_step_wf(s, input, i);
    let t = step(s, input, i);
    let c = input[i as int];
    if s.name_begin is None && !s.escaped && c != 92u8 && c != 123u8 && !(s.open_fns.len() == 0
        || (c != 44u8 && c != 125u8)) {
        let f = s.open_fns.last();
        let p = s.pending.last();
        assert(s.open_fns[s.open_fns.len() - 1] == f);
        assert(s.pending[s.pending.len() - 1] == p);
        assert(t == end_argument(s, c, i));
        assert forall|k: int| 0 <= k < t.tokens.len() implies match #[trigger] t.tokens[k] {
            TokenModel::Function { num_args, delta, first_arg_delta, .. } => {
                &&& num_args == 0 <==> first_arg_delta is None
                &&& t.open_fns.contains(k as nat) ==> delta == 0
                &&& !t.open_fns.contains(k as nat) ==> (num_args == 0 <==> delta == 1) && delta >= 1
            },
            _ => true,
        } by {
            if k < s.tokens.len() && k != f && k != p {
                let _ = s.tokens[k];
                if s.open_fns.contains(k as nat) {
                    let jj = choose|jj: int| 0 <= jj < s.open_fns.len() && s.open_fns[jj] == k;
                    if jj < s.open_fns.len() - 1 {
                        assert(t.open_fns.contains(k as nat)) by {
                            assert(t.open_fns[jj] == k);
                        }
                    }
                }
            } else if k == p && k != f {
                assert(!is_function(s.tokens[p as int]));
            } else if k == f {
                let n = s.tokens.len();
                let t1 = s.tokens.update(f as int, with_arg_added(s.tokens[f as int]));
                let t2 = t1.update(p as int, with_next_arg(t1[p as int], (n - p) as nat));
                assert(is_function(s.tokens[f as int]));
                if p != f {
                    assert(num_args_of(s.tokens[s.open_fns[s.open_fns.len() - 1] as int]) != 0);
                    assert(t2[f as int] == t1[f as int]);
                }
                let t3 = t2.push(TokenModel::FunctionArgEnd { offset: i, arg_delta: None });
                assert(t3[f as int] == t2[f as int]);
                assert(is_function(t3[f as int]));
                if c == 125u8 {
                    assert(t.tokens[f as int] == with_delta(t3[f as int], (n + 1 - f) as nat));
                }
                let _ = s.tokens[k];
                if c != 125u8 {
                    assert(t.open_fns.contains(k as nat)) by {
                        assert(t.open_fns[t.open_fns.len() - 1] == k);
                    }
                }
            }
        }
        assert forall|j: int| 0 <= j < t.pending.len() implies is_function(
            t.tokens[#[trigger] t.pending[j] as int],
        ) ==> t.pending[j] == t.open_fns[j] by {
            if j < s.pending.len() - 1 {
                assert(s.pending[j] == t.pending[j]);
                assert(s.open_fns[j] == t.open_fns[j]);
                let _ = s.pending[j];
                if s.pending[j] == p {
                    let _ = s.pending[s.pending.len() - 1];
                }
            }
        }
        assert forall|j: int| 0 <= j < t.open_fns.len() implies num_args_of(
            t.tokens[#[trigger] t.open_fns[j] as int],
        ) == 0 ==> t.pending[j] == t.open_fns[j] by {
            if j < s.open_fns.len() - 1 {
                assert(s.open_fns[j] == t.open_fns[j]);
                assert(s.pending[j] == t.pending[j]);
                let _ = s.open_fns[j];
                let _ = s.pending[j];
            } else {
                let n = s.tokens.len();
                let t1 = s.tokens.update(f as int, with_arg_added(s.tokens[f as int]));
                let t2 = t1.update(p as int, with_next_arg(t1[p as int], (n - p) as nat));
                assert(is_function(s.tokens[f as int]));
                assert(t.open_fns[j] == f);
                assert(num_args_of(t1[f as int]) > 0);
                assert(num_args_of(t2[f as int]) > 0);
                assert(t.tokens[f as int] == t2[f as int]);
            }
        }
    } else {
        assert forall|k: int| 0 <= k < t.tokens.len() implies match #[trigger] t.tokens[k] {
            TokenModel::Function { num_args, delta, first_arg_delta, .. } => {
                &&& num_args == 0 <==> first_arg_delta is None
                &&& t.open_fns.contains(k as nat) ==> delta == 0
                &&& !t.open_fns.contains(k as nat) ==> (num_args == 0 <==> delta == 1) && delta >= 1
            },
            _ => true,
        } by {
            if k < s.tokens.len() {
                let _ = s.tokens[k];
                if s.open_fns.contains(k as nat) {
                    let jj = choose|jj: int| 0 <= jj < s.open_fns.len() && s.open_fns[jj] == k;
                    assert(t.open_fns[jj] == k);
                }
            } else if t.open_fns.len() > s.open_fns.len() {
                assert(t.open_fns[t.open_fns.len() - 1] == k);
            }
        }
        assert forall|j: int| 0 <= j < t.pending.len() implies is_function(
            t.tokens[#[trigger] t.pending[j] as int],
        ) ==> t.pending[j] == t.open_fns[j] by {
            if j < s.pending.len() {
                let _ = s.pending[j];
            }
        }
        assert forall|j: int| 0 <= j < t.open_fns.len() implies num_args_of(
            t.tokens[#[trigger] t.open_fns[j] as int],
        ) == 0 ==> t.pending[j] == t.open_fns[j] by {
            if j < s.open_fns.len() {
                let _ = s.open_fns[j];
            }
        }
    }
}

proof fn lemma_scan_arity(input: Seq<u8>, n: nat)
    requires
        n <= input.len(),
    ensures
        arity_inv(scan(input, n)),
    decreases n,
{
    if n > 0 {
        lemma_scan_arity(input, (n - 1) as nat);
        lemma_scan_wf(input, 0, (n - 1) as nat);
        lemma_step_arity(scan(input, (n - 1) as nat), input, (n - 1) as nat);
    }
}

/// In a stream that the filling pass accepts, a function without arguments
/// has a delta of one and no first argument, and a function with arguments
/// has a delta above one.
pub proof fn lemma_argumentless_functions(input: Seq<u8>)
    requires
        filling_result(input) is Ok,
    ensures
        forall|k: int|
            0 <= k < token_count(input) ==> match #[trigger] tokens_of(input)[k] {
                TokenModel::Function { num_args, delta, first_arg_delta, .. } => {
                    &&& num_args == 0 <==> delta == 1
                    &&& num_args == 0 <==> first_arg_delta is None
                    &&& delta >= 1
                },
                _ => true,
            },
{
    lemma_scan_arity(input, input.len());
    let s = final_state(input);
    assert(s.open_fns.len() == 0);
    assert forall|k: int| 0 <= k < token_count(input) implies match #[trigger] tokens_of(
        input,
    )[k] {
        TokenModel::Function { num_args, delta, first_arg_delta, .. } => {
            &&& num_args == 0 <==> delta == 1
            &&& num_args == 0 <==> first_arg_delta is None
            &&& delta >= 1
        },
        _ => true,
    } by {
        let _ = s.tokens[k];
    }
}

/// Starting at the end marker at `j` and following `arg_delta`, exactly `n`
/// end markers are visited, and the last of them has no successor.
pub open spec fn arg_chain(tokens: Seq<TokenModel>, j: int, n: nat) -> bool
    decreases n,
{
    &&& 0 <= j < tokens.len()
    &&& match tokens[j] {
        TokenModel::FunctionArgEnd { arg_delta, .. } => if n <= 1 {
            n == 1 && arg_delta is None
        } else {
            match arg_delta {
                Some(d) => d > 0 && arg_chain(tokens, j + d, (n - 1) as nat),
                None => false,
            }
        },
        _ => false,
    }
}

/// The function token at `k` leads through `first_arg_delta` to a chain of
/// exactly `num_args` end markers.
pub open spec fn args_chained(tokens: Seq<TokenModel>, k: int) -> bool {
    match tokens[k] {
        TokenModel::Function { num_args, first_arg_delta, .. } => if num_args == 0 {
            first_arg_delta is None
        } else {
            match first_arg_delta {
                Some(d) => d > 0 && arg_chain(tokens, k + d, num_args),
                None => false,
            }
        },
        _ => true,
    }
}

/// As `arg_chain`, with every marker visited written inside function `g`.
pub open spec fn owned_chain(tokens: Seq<TokenModel>, parent: Seq<int>, g: int, j: int, n: nat) -> bool
    decreases n,
{
    &&& 0 <= j < tokens.len()
    &&& j < parent.len()
    &&& parent[j] == g
    &&& match tokens[j] {
        TokenModel::FunctionArgEnd { arg_delta, .. } => if n <= 1 {
            n == 1 && arg_delta is None
        } else {
            match arg_delta {
                Some(d) => d > 0 && owned_chain(tokens, parent, g, j + d, (n - 1) as nat),
                None => false,
            }
        },
        _ => false,
    }
}

/// The last marker of the chain of `n` markers that starts at `j`.
pub open spec fn chain_last(tokens: Seq<TokenModel>, j: int, n: nat) -> int
    decreases n,
{
    if n <= 1 {
        j
    } else {
        match tokens[j] {
            TokenModel::FunctionArgEnd { arg_delta: Some(d), .. } => chain_last(
                tokens,
                j + d,
                (n - 1) as nat,
            ),
            _ => j,
        }
    }
}

pub open spec fn first_arg_of(t: TokenModel) -> Option<nat> {
    match t {
        TokenModel::Function { first_arg_delta, .. } => first_arg_delta,
        _ => None,
    }
}

pub open spec fn is_arg_end(t: TokenModel) -> bool {
    t is FunctionArgEnd
}

/// Every function's markers so far form an owned chain; an open function's
/// chain ends at its pending marker.
pub open spec fn chain_inv(s: ScanState) -> bool {
    &&& forall|k: int|
        0 <= k < s.tokens.len() && num_args_of(#[trigger] s.tokens[k]) > 0 ==> {
            &&& first_arg_of(s.tokens[k]) is Some
            &&& first_arg_of(s.tokens[k])->0 > 0
            &&& owned_chain(s.tokens, s.parent, k, k + first_arg_of(s.tokens[k])->0, num_args_of(s.tokens[k]))
        }
    &&& forall|j: int|
        0 <= j < s.open_fns.len() && num_args_of(s.tokens[#[trigger] s.open_fns[j] as int]) > 0
            ==> chain_last(
            s.tokens,
            s.open_fns[j] + first_arg_of(s.tokens[s.open_fns[j] as int])->0 as int,
            num_args_of(s.tokens[s.open_fns[j] as int]),
        ) == s.pending[j] as int
}

proof fn lemma_chain_last(tokens: Seq<TokenModel>, parent: Seq<int>, g: int, j: int, n: nat)
    requires
        owned_chain(tokens, parent, g, j, n),
    ensures
        0 <= chain_last(tokens, j, n) < tokens.len(),
        parent[chain_last(tokens, j, n)] == g,
        tokens[chain_last(tokens, j, n)] matches TokenModel::FunctionArgEnd { arg_delta: None, .. },
        j <= chain_last(tokens, j, n),
    decreases n,
{
    if n > 1 {
        let d = tokens[j]->arg_delta->0;
        lemma_chain_last(tokens, parent, g, j + d, (n - 1) as nat);
    }
}

/// A chain survives changes that touch none of the end markers of `g`.
proof fn lemma_chain_frame(
    t1: Seq<TokenModel>,
    par1: Seq<int>,
    t2: Seq<TokenModel>,
    par2: Seq<int>,
    g: int,
    j: int,
    n: nat,
)
    requires
        owned_chain(t1, par1, g, j, n),
        t1.len() <= t2.len(),
        par1.len() <= par2.len(),
        forall|x: int|
            0 <= x < t1.len() && x < par1.len() && par1[x] == g && is_arg_end(#[trigger] t1[x])
                ==> t2[x] == t1[x] && par2[x] == par1[x],
    ensures
        owned_chain(t2, par2, g, j, n),
        chain_last(t2, j, n) == chain_last(t1, j, n),
    decreases n,
{
    assert(is_arg_end(t1[j]));
    if n > 1 {
        let d = t1[j]->arg_delta->0;
        lemma_chain_frame(t1, par1, t2, par2, g, j + d, (n - 1) as nat);
    }
}

/// Linking the last marker of a chain to a new marker `q` lengthens it by one.
proof fn lemma_chain_extend(
    t1: Seq<TokenModel>,
    par1: Seq<int>,
    t2: Seq<TokenModel>,
    par2: Seq<int>,
    g: int,
    j: int,
    n: nat,
    q: int,
)
    requires
        owned_chain(t1, par1, g, j, n),
        t1.len() <= t2.len(),
        par1.len() <= par2.len(),
        chain_last(t1, j, n) < q < t2.len(),
        q < par2.len(),
        par2[q] == g,
        t2[q] matches TokenModel::FunctionArgEnd { arg_delta: None, .. },
        t2[chain_last(t1, j, n)] == with_next_arg(
            t1[chain_last(t1, j, n)],
            (q - chain_last(t1, j, n)) as nat,
        ),
        par2[chain_last(t1, j, n)] == g,
        forall|x: int|
            0 <= x < t1.len() && x < par1.len() && x != chain_last(t1, j, n) && par1[x] == g
                && is_arg_end(#[trigger] t1[x]) ==> t2[x] == t1[x] && par2[x] == par1[x],
    ensures
        owned_chain(t2, par2, g, j, n + 1),
        chain_last(t2, j, n + 1) == q,
    decreases n,
{
    lemma_chain_last(t1, par1, g, j, n);
    if n <= 1 {
        assert(owned_chain(t2, par2, g, q, 1));
        assert(chain_last(t2, q, 1) == q);
    } else {
        let d = t1[j]->arg_delta->0;
        lemma_chain_last(t1, par1, g, j + d, (n - 1) as nat);
        assert(j != chain_last(t1, j, n));
        assert(is_arg_end(t1[j]));
        assert(t2[j] == t1[j]);
        lemma_chain_extend(t1, par1, t2, par2, g, j + d, (n - 1) as nat, q);
    }
}

proof fn lemma_step_chain(s: ScanState, input: Seq<u8>, i: nat)
    requires
        state_wf(s, i),
        arity_inv(s),
        chain_inv(s),
        i < input.len(),
    ensures
        chain_inv(step(s, input, i)),
{
    lemma_step_wf(s, input, i);
    let t = step(s, input, i);
    let c = input[i as int];
    let n = s.tokens.len() as int;
    if s.name_begin is None && !s.escaped && c != 92u8 && c != 123u8 && !(s.open_fns.len() == 0
        || (c != 44u8 && c != 125u8)) {
        let f = s.open_fns.last() as int;
        let p = s.pending.last() as int;
        let last = s.open_fns.len() - 1;
        assert(s.open_fns[last] == f);
        assert(s.pending[last] == p);
        assert(t == end_argument(s, c, i));
        let t1 = s.tokens.update(f, with_arg_added(s.tokens[f]));
        let t2 = t1.update(p, with_next_arg(t1[p], (n - p) as nat));
        let t3 = t2.push(TokenModel::FunctionArgEnd { offset: i, arg_delta: None });
        assert(is_function(s.tokens[f]));
        assert(t.parent == s.parent.push(f));
        assert(t.tokens.len() == n + 1);
        let m = num_args_of(s.tokens[f]);
        if m == 0 {
            assert(num_args_of(s.tokens[s.open_fns[last] as int]) == 0);
            assert(p == f);
        } else {
            assert(num_args_of(s.tokens[s.open_fns[last] as int]) > 0);
            let d = first_arg_of(s.tokens[f])->0;
            assert(owned_chain(s.tokens, s.parent, f, f + d, m));
            lemma_chain_last(s.tokens, s.parent, f, f + d, m);
            assert(p != f);
            assert(t.tokens[p] == with_next_arg(s.tokens[p], (n - p) as nat));
        }
        // markers that belong to no function but `f` are untouched
        assert forall|x: int|
            0 <= x < n && x != p && is_arg_end(#[trigger] s.tokens[x]) implies t.tokens[x]
            == s.tokens[x] && t.parent[x] == s.parent[x] by {
            assert(x != f);
        }
        assert(t.tokens[n] matches TokenModel::FunctionArgEnd { arg_delta: None, .. });
        // the function that gained an argument
        let tf = t.tokens[f];
        assert(num_args_of(tf) == m + 1);
        if m == 0 {
            assert(first_arg_of(tf) == Some((n - f) as nat));
            assert(owned_chain(t.tokens, t.parent, f, n, 1));
            assert(chain_last(t.tokens, n, 1) == n);
        } else {
            let d = first_arg_of(s.tokens[f])->0;
            assert(first_arg_of(tf) == Some(d));
            lemma_chain_extend(s.tokens, s.parent, t.tokens, t.parent, f, f + d, m, n);
        }
        assert forall|k: int|
            0 <= k < t.tokens.len() && num_args_of(#[trigger] t.tokens[k]) > 0 implies {
            &&& first_arg_of(t.tokens[k]) is Some
            &&& first_arg_of(t.tokens[k])->0 > 0
            &&& owned_chain(t.tokens, t.parent, k, k + first_arg_of(t.tokens[k])->0, num_args_of(t.tokens[k]))
        } by {
            if k != f && k < n {
                if k == p {
                    assert(is_function(s.tokens[s.pending[last] as int]));
                }
                assert(k != p);
                assert(t.tokens[k] == s.tokens[k]);
                let d = first_arg_of(s.tokens[k])->0;
                lemma_chain_frame(s.tokens, s.parent, t.tokens, t.parent, k, k + d, num_args_of(s.tokens[k]));
            }
        }
        assert forall|j: int|
            0 <= j < t.open_fns.len() && num_args_of(t.tokens[#[trigger] t.open_fns[j] as int]) > 0
            implies chain_last(
            t.tokens,
            t.open_fns[j] + first_arg_of(t.tokens[t.open_fns[j] as int])->0 as int,
            num_args_of(t.tokens[t.open_fns[j] as int]),
        ) == t.pending[j] as int by {
            if j < last {
                let k = s.open_fns[j] as int;
                assert(t.open_fns[j] == k);
                assert(t.pending[j] == s.pending[j]);
                assert(s.open_fns[j] < s.open_fns[last]);
                if k == p {
                    assert(is_function(s.tokens[s.pending[last] as int]));
                }
                assert(t.tokens[k] == s.tokens[k]);
                let d = first_arg_of(s.tokens[k])->0;
                lemma_chain_frame(s.tokens, s.parent, t.tokens, t.parent, k, k + d, num_args_of(s.tokens[k]));
            } else {
                assert(t.open_fns[j] == f);
                assert(t.pending[j] == n);
            }
        }
    } else {
        assert(t.tokens.len() >= n);
        assert forall|x: int| 0 <= x < n implies t.tokens[x] == s.tokens[x] && t.parent[x]
            == s.parent[x] by {}
        assert forall|k: int|
            0 <= k < t.tokens.len() && num_args_of(#[trigger] t.tokens[k]) > 0 implies {
            &&& first_arg_of(t.tokens[k]) is Some
            &&& first_arg_of(t.tokens[k])->0 > 0
            &&& owned_chain(t.tokens, t.parent, k, k + first_arg_of(t.tokens[k])->0, num_args_of(t.tokens[k]))
        } by {
            if k < n {
                let d = first_arg_of(s.tokens[k])->0;
                lemma_chain_frame(s.tokens, s.parent, t.tokens, t.parent, k, k + d, num_args_of(s.tokens[k]));
            }
        }
        assert forall|j: int|
            0 <= j < t.open_fns.len() && num_args_of(t.tokens[#[trigger] t.open_fns[j] as int]) > 0
            implies chain_last(
            t.tokens,
            t.open_fns[j] + first_arg_of(t.tokens[t.open_fns[j] as int])->0 as int,
            num_args_of(t.tokens[t.open_fns[j] as int]),
        ) == t.pending[j] as int by {
            if j < s.open_fns.len() {
                let k = s.open_fns[j] as int;
                assert(t.open_fns[j] == k);
                assert(t.pending[j] == s.pending[j]);
                let d = first_arg_of(s.tokens[k])->0;
                lemma_chain_frame(s.tokens, s.parent, t.tokens, t.parent, k, k + d, num_args_of(s.tokens[k]));
            }
        }
    }
}

proof fn lemma_owned_chain_is_chain(tokens: Seq<TokenModel>, parent: Seq<int>, g: int, j: int, n: nat)
    requires
        owned_chain(tokens, parent, g, j, n),
    ensures
        arg_chain(tokens, j, n),
    decreases n,
{
    if n > 1 {
        let d = tokens[j]->arg_delta->0;
        lemma_owned_chain_is_chain(tokens, parent, g, j + d, (n - 1) as nat);
    }
}

proof fn lemma_scan_chain(input: Seq<u8>, n: nat)
    requires
        n <= input.len(),
    ensures
        chain_inv(scan(input, n)),
    decreases n,
{
    if n > 0 {
        lemma_scan_chain(input, (n - 1) as nat);
        lemma_scan_arity(input, (n - 1) as nat);
        lemma_scan_wf(input, 0, (n - 1) as nat);
        lemma_step_chain(scan(input, (n - 1) as nat), input, (n - 1) as nat);
    }
}

/// In a stream that the filling pass accepts, every function token's
/// `first_arg_delta` / `arg_delta` chain visits exactly `num_args` end
/// markers and ends in `None`.
pub proof fn lemma_argument_chains(input: Seq<u8>)
    requires
        filling_result(input) is Ok,
    ensures
        forall|k: int| 0 <= k < token_count(input) ==> #[trigger] args_chained(tokens_of(input), k),
{
    lemma_scan_arity(input, input.len());
    lemma_scan_chain(input, input.len());
    let s = final_state(input);
    assert forall|k: int| 0 <= k < token_count(input) implies #[trigger] args_chained(
        tokens_of(input),
        k,
    ) by {
        let _ = s.tokens[k];
        if num_args_of(s.tokens[k]) > 0 {
            let d = first_arg_of(s.tokens[k])->0;
            lemma_owned_chain_is_chain(s.tokens, s.parent, k, k + d, num_args_of(s.tokens[k]));
        }
    }
}

/// Token `j` lies inside function `k`: following the recorded parents up
/// from `j` reaches `k`.
pub open spec fn within(parent: Seq<int>, j: int, k: int) -> bool
    decreases j,
{
    &&& 0 <= j < parent.len()
    &&& (parent[j] == k || (0 <= parent[j] < j && within(parent, parent[j], k)))
}

pub open spec fn delta_of(t: TokenModel) -> nat {
    match t {
        TokenModel::Function { delta, .. } => delta,
        _ => 0,
    }
}

/// The function token at `k` spans its whole subtree: every token up to
/// `k + delta` lies inside it, and the token at `k + delta`, if any, sits at
/// the same nesting level as the function.
pub open spec fn spans_subtree(tokens: Seq<TokenModel>, parent: Seq<int>, k: int) -> bool {
    is_function(tokens[k]) ==> {
        let e = k + delta_of(tokens[k]);
        &&& e <= tokens.len()
        &&& forall|j: int| k < j < e ==> #[trigger] within(parent, j, k)
        &&& e < tokens.len() ==> parent[e] == parent[k]
    }
}

pub open spec fn nest_inv(s: ScanState) -> bool {
    &&& forall|j: int| 0 <= j < s.parent.len() ==> -1 <= #[trigger] s.parent[j] < j
    &&& forall|jj: int|
        0 <= jj < s.open_fns.len() ==> s.parent[#[trigger] s.open_fns[jj] as int] == if jj == 0 {
            -1
        } else {
            s.open_fns[jj - 1] as int
        }
    &&& forall|jj: int, j: int|
        0 <= jj < s.open_fns.len() && s.open_fns[jj] < j < s.tokens.len() ==> #[trigger] within(
            s.parent,
            j,
            #[trigger] s.open_fns[jj] as int,
        )
    &&& forall|k: int|
        0 <= k < s.tokens.len() && !s.open_fns.contains(k as nat) ==> #[trigger] spans_subtree(
            s.tokens,
            s.parent,
            k,
        )
    &&& forall|k: int|
        0 <= k < s.tokens.len() && !s.open_fns.contains(k as nat) && is_function(
            #[trigger] s.tokens[k],
        ) && k + delta_of(s.tokens[k]) == s.tokens.len() ==> s.parent[k] == top(s)
}

proof fn lemma_within_frame(par1: Seq<int>, par2: Seq<int>, j: int, k: int)
    requires
        within(par1, j, k),
        par1.len() <= par2.len(),
        forall|x: int| 0 <= x < par1.len() ==> par2[x] == par1[x],
    ensures
        within(par2, j, k),
    decreases j,
{
    if par1[j] != k {
        lemma_within_frame(par1, par2, par1[j], k);
    }
}

proof fn lemma_step_nest_common(s: ScanState, input: Seq<u8>, i: nat)
    requires
        state_wf(s, i),
        arity_inv(s),
        nest_inv(s),
        i < input.len(),
    ensures
        top(s) < s.tokens.len(),
        forall|x: int| 0 <= x < s.parent.len() ==> step(s, input, i).parent[x] == s.parent[x],
        forall|x: int|
            s.tokens.len() <= x < step(s, input, i).parent.len() ==> step(s, input, i).parent[x] == top(s),
        forall|jj: int, j: int|
            0 <= jj < s.open_fns.len() && s.tokens.len() <= j < step(s, input, i).parent.len()
                ==> within(step(s, input, i).parent, j, s.open_fns[jj] as int),
        forall|jj: int, j: int|
            0 <= jj < s.open_fns.len() && s.open_fns[jj] < j < s.tokens.len() ==> within(
                step(s, input, i).parent,
                j,
                s.open_fns[jj] as int,
            ),
        forall|j: int|
            0 <= j < step(s, input, i).parent.len() ==> -1 <= #[trigger] step(s, input, i).parent[j] < j,
{
    lemma_step_wf(s, input, i);
    let t = step(s, input, i);
    let c = input[i as int];
    let n = s.tokens.len() as int;
    assert(top(s) < n) by {
        if s.open_fns.len() > 0 {
            assert(s.open_fns[s.open_fns.len() - 1] < n);
        }
    }
    assert forall|x: int| 0 <= x < s.parent.len() implies t.parent[x] == s.parent[x] by {}
    assert forall|x: int| n <= x < t.parent.len() implies t.parent[x] == top(s) by {}
    // a new token written inside the innermost open function lies inside every open function
    assert forall|jj: int, j: int|
        0 <= jj < s.open_fns.len() && n <= j < t.parent.len() implies within(
        t.parent,
        j,
        s.open_fns[jj] as int,
    ) by {
        let last = s.open_fns.len() - 1;
        if jj < last {
            assert(s.open_fns[jj] < s.open_fns[last]);
            assert(s.open_fns[last] < n);
            assert(within(s.parent, s.open_fns[last] as int, s.open_fns[jj] as int));
            lemma_within_frame(s.parent, t.parent, s.open_fns[last] as int, s.open_fns[jj] as int);
        }
    }
    assert forall|jj: int, j: int|
        0 <= jj < s.open_fns.len() && s.open_fns[jj] < j < n implies within(
        t.parent,
        j,
        s.open_fns[jj] as int,
    ) by {
        assert(within(s.parent, j, s.open_fns[jj] as int));
        lemma_within_frame(s.parent, t.parent, j, s.open_fns[jj] as int);
    }
    assert forall|j: int| 0 <= j < t.parent.len() implies -1 <= #[trigger] t.parent[j] < j by {
        if j < n {
            let _ = s.parent[j];
        }
    }
}

proof fn lemma_step_nest_arg(s: ScanState, input: Seq<u8>, i: nat)
    requires
        state_wf(s, i),
        arity_inv(s),
        nest_inv(s),
        i < input.len(),
        s.name_begin is None && !s.escaped && input[i as int] != 92u8 && input[i as int] != 123u8 && !(s.open_fns.len() == 0
            || (input[i as int] != 44u8 && input[i as int] != 125u8)),
    ensures
        nest_inv(step(s, input, i)),
{
    lemma_step_wf(s, input, i);
    lemma_step_nest_common(s, input, i);
    let t = step(s, input, i);
    let c = input[i as int];
    let n = s.tokens.len() as int;
    let f = s.open_fns.last() as int;
    let p = s.pending.last() as int;
    let last = s.open_fns.len() - 1;
    assert(s.open_fns[last] == f);
    assert(s.pending[last] == p);
    assert(t == end_argument(s, c, i));
    assert(t.parent == s.parent.push(f));
    assert(is_function(s.tokens[f]));
    assert(top(s) == f);
    assert forall|jj: int|
        0 <= jj < t.open_fns.len() implies t.parent[#[trigger] t.open_fns[jj] as int] == if jj
        == 0 {
        -1
    } else {
        t.open_fns[jj - 1] as int
    } by {
        assert(t.open_fns[jj] == s.open_fns[jj]);
        let _ = s.open_fns[jj];
        if jj > 0 {
            assert(t.open_fns[jj - 1] == s.open_fns[jj - 1]);
        }
    }
    assert forall|jj: int, j: int|
        0 <= jj < t.open_fns.len() && t.open_fns[jj] < j < t.tokens.len() implies #[trigger] within(
        t.parent,
        j,
        #[trigger] t.open_fns[jj] as int,
    ) by {
        assert(t.open_fns[jj] == s.open_fns[jj]);
    }
    assert forall|k: int|
        0 <= k < t.tokens.len() && !t.open_fns.contains(k as nat) implies #[trigger] spans_subtree(
        t.tokens,
        t.parent,
        k,
    ) && (is_function(t.tokens[k]) && k + delta_of(t.tokens[k]) == t.tokens.len() ==> t.parent[k]
        == top(t)) by {
        if k == f {
            assert(c == 125u8) by {
                if c != 125u8 {
                    assert(t.open_fns[last] == f);
                }
            }
            let t1 = s.tokens.update(f, with_arg_added(s.tokens[f]));
            let t2 = t1.update(p, with_next_arg(t1[p], (n - p) as nat));
            let t3 = t2.push(TokenModel::FunctionArgEnd { offset: i, arg_delta: None });
            assert(is_function(t3[f]));
            assert(t.tokens[f] == with_delta(t3[f], (n + 1 - f) as nat));
            assert(delta_of(t.tokens[f]) == n + 1 - f);
            assert(forall|j: int| f < j < n + 1 ==> #[trigger] within(t.parent, j, f)) by {
                assert forall|j: int| f < j < n + 1 implies #[trigger] within(t.parent, j, f) by {
                    if j < n {
                        assert(within(t.parent, j, s.open_fns[last] as int));
                    }
                }
            }
            assert(s.parent[s.open_fns[last] as int] == top(t));
        } else if k < n {
            assert(!s.open_fns.contains(k as nat)) by {
                if s.open_fns.contains(k as nat) {
                    let jj = choose|jj: int| 0 <= jj < s.open_fns.len() && s.open_fns[jj] == k;
                    assert(jj != last);
                    assert(t.open_fns[jj] == k);
                }
            }
            assert(spans_subtree(s.tokens, s.parent, k));
            if k == p {
                if is_function(s.tokens[k]) {
                    assert(is_function(s.tokens[s.pending[last] as int]));
                }
                assert(!is_function(s.tokens[k]));
            }
            if is_function(s.tokens[k]) {
                assert(t.tokens[k] == s.tokens[k]);
                let e = k + delta_of(s.tokens[k]);
                assert forall|j: int| k < j < e implies #[trigger] within(t.parent, j, k) by {
                    assert(within(s.parent, j, k));
                    lemma_within_frame(s.parent, t.parent, j, k);
                }
            }
        }
    }
    assert forall|k: int|
        0 <= k < t.tokens.len() && !t.open_fns.contains(k as nat) && is_function(
            #[trigger] t.tokens[k],
        ) && k + delta_of(t.tokens[k]) == t.tokens.len() implies t.parent[k] == top(t) by {
        assert(spans_subtree(t.tokens, t.parent, k));
    }
}

proof fn lemma_step_nest_push(s: ScanState, input: Seq<u8>, i: nat)
    requires
        state_wf(s, i),
        arity_inv(s),
        nest_inv(s),
        i < input.len(),
        !(s.name_begin is None && !s.escaped && input[i as int] != 92u8 && input[i as int] != 123u8 && !(s.open_fns.len() == 0
            || (input[i as int] != 44u8 && input[i as int] != 125u8))),
    ensures
        nest_inv(step(s, input, i)),
{
    lemma_step_wf(s, input, i);
    lemma_step_nest_common(s, input, i);
    let t = step(s, input, i);
    let c = input[i as int];
    let n = s.tokens.len() as int;
    assert forall|x: int| 0 <= x < n implies t.tokens[x] == s.tokens[x] by {}
    assert(t.open_fns.len() >= s.open_fns.len());
    assert forall|x: int| 0 <= x < s.open_fns.len() implies t.open_fns[x] == s.open_fns[x] by {}
    assert forall|jj: int|
        0 <= jj < t.open_fns.len() implies t.parent[#[trigger] t.open_fns[jj] as int] == if jj
        == 0 {
        -1
    } else {
        t.open_fns[jj - 1] as int
    } by {
        if jj < s.open_fns.len() {
            let _ = s.open_fns[jj];
        }
    }
    assert forall|jj: int, j: int|
        0 <= jj < t.open_fns.len() && t.open_fns[jj] < j < t.tokens.len() implies #[trigger] within(
        t.parent,
        j,
        #[trigger] t.open_fns[jj] as int,
    ) by {
        if jj < s.open_fns.len() {
            assert(t.open_fns[jj] == s.open_fns[jj]);
        }
    }
    assert forall|k: int|
        0 <= k < t.tokens.len() && !t.open_fns.contains(k as nat) implies #[trigger] spans_subtree(
        t.tokens,
        t.parent,
        k,
    ) && (is_function(t.tokens[k]) && k + delta_of(t.tokens[k]) == t.tokens.len() ==> t.parent[k]
        == top(t)) by {
        if k < n {
            assert(!s.open_fns.contains(k as nat)) by {
                if s.open_fns.contains(k as nat) {
                    let jj = choose|jj: int| 0 <= jj < s.open_fns.len() && s.open_fns[jj] == k;
                    assert(t.open_fns[jj] == k);
                }
            }
            assert(spans_subtree(s.tokens, s.parent, k));
            if is_function(s.tokens[k]) {
                let e = k + delta_of(s.tokens[k]);
                assert forall|j: int| k < j < e implies #[trigger] within(t.parent, j, k) by {
                    assert(within(s.parent, j, k));
                    lemma_within_frame(s.parent, t.parent, j, k);
                }
                if t.tokens.len() == n {
                    assert(top(t) == top(s));
                }
            }
        } else if is_function(t.tokens[k]) {
            assert(t.open_fns == s.open_fns) by {
                if c == 44u8 {
                    assert(t.open_fns[t.open_fns.len() - 1] == k);
                }
            }
            assert(delta_of(t.tokens[k]) == 1);
        }
    }
    assert forall|k: int|
        0 <= k < t.tokens.len() && !t.open_fns.contains(k as nat) && is_function(
            #[trigger] t.tokens[k],
        ) && k + delta_of(t.tokens[k]) == t.tokens.len() implies t.parent[k] == top(t) by {
        assert(spans_subtree(t.tokens, t.parent, k));
    }
}

proof fn lemma_step_nest(s: ScanState, input: Seq<u8>, i: nat)
    requires
        state_wf(s, i),
        arity_inv(s),
        nest_inv(s),
        i < input.len(),
    ensures
        nest_inv(step(s, input, i)),
{
    if s.name_begin is None && !s.escaped && input[i as int] != 92u8 && input[i as int] != 123u8 && !(s.open_fns.len() == 0
        || (input[i as int] != 44u8 && input[i as int] != 125u8)) {
        lemma_step_nest_arg(s, input, i);
    } else {
        lemma_step_nest_push(s, input, i);
    }
}

proof fn lemma_scan_nest(input: Seq<u8>, n: nat)
    requires
        n <= input.len(),
    ensures
        nest_inv(scan(input, n)),
    decreases n,
{
    if n > 0 {
        lemma_scan_nest(input, (n - 1) as nat);
        lemma_scan_arity(input, (n - 1) as nat);
        lemma_scan_wf(input, 0, (n - 1) as nat);
        lemma_step_nest(scan(input, (n - 1) as nat), input, (n - 1) as nat);
    }
}

/// In a stream that the filling pass accepts, jumping `delta` tokens
/// forward from a function token skips exactly its subtree: every token
/// skipped lies inside the function, and the token landed on, if any, is at
/// the function's own nesting level.
pub proof fn lemma_delta_skips_subtree(input: Seq<u8>)
    requires
        filling_result(input) is Ok,
    ensures
        forall|k: int|
            0 <= k < token_count(input) ==> #[trigger] spans_subtree(
                tokens_of(input),
                final_state(input).parent,
                k,
            ),
{
    lemma_scan_nest(input, input.len());
    let s = final_state(input);
    assert forall|k: int| 0 <= k < token_count(input) implies #[trigger] spans_subtree(
        tokens_of(input),
        s.parent,
        k,
    ) by {
        assert(!s.open_fns.contains(k as nat));
    }
}

} // verus!

use vstd::prelude::*;
use crate::error::ParseError;
use crate::sink::{ByteSink, outcome};
use crate::parser::patterns::{QUOTE, COMMA, OPEN_BRACKET, CLOSE_BRACKET, OPEN_BRACE, CLOSE_BRACE};

verus! {

/// The scanning state of `load_function`: bracket depth, whether the scan is
/// inside a string, and the argument boundaries found so far.
pub type FunctionState = (int, bool, Seq<usize>);

/// The state before `load_function` reads its first byte.
pub open spec fn function_start() -> FunctionState {
    (0, false, Seq::empty())
}

/// How `load_function` updates its state on byte `c`, which ends at index `idx`
/// of the function text (so that `idx` is one past `c`).
///
/// Quotes toggle the string flag; outside strings, `[` and `{` open, `]` and `}`
/// close, and the `[` that opens the function, each top-level `,` and the `]`
/// that closes the function record `idx` as an argument boundary.
pub open spec fn function_step(st: FunctionState, c: u8, idx: usize) -> FunctionState {
    let (depth, in_string, args) = st;
    if c == QUOTE {
        (depth, !in_string, args)
    } else if in_string {
        st
    } else if c == COMMA {
        if depth == 1 { (depth, in_string, args.push(idx)) } else { st }
    } else if c == OPEN_BRACKET {
        if depth == 0 { (1, in_string, args.push(idx)) } else { (depth + 1, in_string, args) }
    } else if c == CLOSE_BRACKET {
        if depth == 1 { (0, in_string, args.push(idx)) } else { (depth - 1, in_string, args) }
    } else if c == OPEN_BRACE {
        (depth + 1, in_string, args)
    } else if c == CLOSE_BRACE {
        (depth - 1, in_string, args)
    } else {
        st
    }
}

/// The function has been closed: the depth is back to zero after it was opened.
pub open spec fn function_done(st: FunctionState) -> bool {
    st.0 == 0 && st.2.len() > 0
}

/// Scans `s` from index `i` in state `st` until the function is closed, giving
/// the length of the function text and the final state, or `None` if `s` ends first.
pub open spec fn function_scan(s: Seq<u8>, i: nat, st: FunctionState) -> Option<(nat, FunctionState)>
    decreases s.len() - i,
{
    if function_done(st) {
        Some((i, st))
    } else if i >= s.len() {
        None
    } else {
        function_scan(s, i + 1, function_step(st, s[i as int], (i + 1) as usize))
    }
}

/// Where the function at the start of `s` ends, and its argument boundaries.
pub open spec fn function_extent(s: Seq<u8>) -> Option<(nat, Seq<usize>)> {
    match function_scan(s, 0, function_start()) {
        Some((k, st)) => Some((k, st.2)),
        None => None,
    }
}

/// Argument boundaries well formed for a text of length `k`: strictly
/// increasing, each at least 1 and at most `k`.
pub open spec fn boundaries_within(args: Seq<usize>, k: int) -> bool {
    &&& forall|a: int, b: int| 0 <= a < b < args.len() ==> #[trigger] args[a] < #[trigger] args[b]
    &&& forall|a: int| 0 <= a < args.len() ==> 1 <= #[trigger] args[a] <= k
}

proof fn lemma_function_scan(s: Seq<u8>, i: nat, st: FunctionState)
    requires
        i <= s.len(),
        s.len() <= usize::MAX,
        boundaries_within(st.2, i as int),
    ensures
        match function_scan(s, i, st) {
            Some((k, st2)) => i <= k <= s.len() && boundaries_within(st2.2, k as int)
                && function_done(st2),
            None => true,
        },
    decreases s.len() - i,
{
    if function_done(st) {
    } else if i >= s.len() {
    } else {
        let st2 = function_step(st, s[i as int], (i + 1) as usize);
        let args = st.2;
        let args2 = st2.2;
        assert(args2 == args || args2 == args.push((i + 1) as usize));
        if args2 == args.push((i + 1) as usize) {
            assert forall|a: int, b: int| 0 <= a < b < args2.len() implies #[trigger] args2[a] < #[trigger] args2[b] by {
                if b < args.len() {
                    assert(args2[a] == args[a] && args2[b] == args[b]);
                } else {
                    assert(args2[a] == args[a]);
                }
            }
            assert forall|a: int| 0 <= a < args2.len() implies 1 <= #[trigger] args2[a] <= i + 1 by {
                if a < args.len() {
                    assert(args2[a] == args[a]);
                }
            }
        }
        assert(boundaries_within(st2.2, (i + 1) as int));
        lemma_function_scan(s, i + 1, st2);
    }
}

/// A function found by `function_extent` has at least one byte, lies within
/// `s`, and has at least one, well-formed, argument boundary.
pub proof fn lemma_function_extent(s: Seq<u8>)
    requires
        s.len() <= usize::MAX,
    ensures
        match function_extent(s) {
            Some((k, args)) => 1 <= k <= s.len() && args.len() >= 1 && boundaries_within(args, k as int),
            None => true,
        },
{
    lemma_function_scan(s, 0, function_start());
    if let Some((k, args)) = function_extent(s) {
        assert(args[0] >= 1);
    }
}

proof fn lemma_function_scan_len(s: Seq<u8>, i: nat, st: FunctionState)
    requires
        i <= s.len(),
    ensures
        match function_scan(s, i, st) {
            Some((k, _)) => i <= k <= s.len() && (!function_done(st) ==> i < k),
            None => true,
        },
    decreases s.len() - i,
{
    if function_done(st) {
    } else if i >= s.len() {
    } else {
        lemma_function_scan_len(s, i + 1, function_step(st, s[i as int], (i + 1) as usize));
    }
}

/// How many bytes loading the function at the start of `s` consumes: the
/// function's length, or all of `s` when it does not end.
pub open spec fn extent_len(s: Seq<u8>) -> nat {
    match function_extent(s) {
        Some((k, _)) => k,
        None => s.len(),
    }
}

/// A function found by `function_extent` is non-empty and lies within `s`.
pub proof fn lemma_function_extent_len(s: Seq<u8>)
    ensures
        match function_extent(s) {
            Some((k, _)) => 1 <= k <= s.len(),
            None => true,
        },
        extent_len(s) <= s.len(),
{
    lemma_function_scan_len(s, 0, function_start());
}

/// The scanning state of `load_rest_of_function`: bracket depth, whether the
/// scan is inside a string, and the argument boundaries found so far.
pub type RestState = (int, bool, Seq<usize>);

/// The state before `load_rest_of_function` reads its first byte: inside one
/// pair of brackets, outside any string, no boundary yet.
pub open spec fn rest_start() -> RestState {
    (1, false, Seq::empty())
}

/// How `load_rest_of_function` updates its state on byte `c` ending at index `idx`.
///
/// Quotes toggle the string flag; outside strings, `[` and `{` open, `]` and `}`
/// close, and each `,` at depth one, the `]` that closes the function and a `[`
/// met at depth zero record `idx` as an argument boundary.
pub open spec fn rest_step(st: RestState, c: u8, idx: usize) -> RestState {
    let (depth, in_string, args) = st;
    if c == QUOTE {
        (depth, !in_string, args)
    } else if in_string {
        st
    } else if c == COMMA {
        if depth == 1 { (depth, in_string, args.push(idx)) } else { st }
    } else if c == OPEN_BRACKET {
        if depth == 0 { (1, in_string, args.push(idx)) } else { (depth + 1, in_string, args) }
    } else if c == CLOSE_BRACKET {
        if depth == 1 { (0, in_string, args.push(idx)) } else { (depth - 1, in_string, args) }
    } else if c == OPEN_BRACE {
        (depth + 1, in_string, args)
    } else if c == CLOSE_BRACE {
        (depth - 1, in_string, args)
    } else {
        st
    }
}

/// Scans `s` from index `i` in state `st`: stops once the depth is back to zero
/// with a boundary recorded; at the end of `s` it succeeds unless the depth is
/// still positive.
pub open spec fn rest_scan(s: Seq<u8>, i: nat, st: RestState) -> Option<(nat, RestState)>
    decreases s.len() - i,
{
    if st.0 == 0 && st.2.len() > 0 {
        Some((i, st))
    } else if i >= s.len() {
        if st.0 > 0 { None } else { Some((i, st)) }
    } else {
        rest_scan(s, i + 1, rest_step(st, s[i as int], (i + 1) as usize))
    }
}

/// Where the rest of the function that `s` starts inside of ends, and its
/// argument boundaries.
pub open spec fn rest_extent(s: Seq<u8>) -> Option<(nat, Seq<usize>)> {
    match rest_scan(s, 0, rest_start()) {
        Some((k, st)) => Some((k, st.2)),
        None => None,
    }
}

proof fn lemma_rest_scan(s: Seq<u8>, i: nat, st: RestState)
    requires
        i <= s.len(),
    ensures
        match rest_scan(s, i, st) {
            Some((k, _)) => i <= k <= s.len(),
            None => true,
        },
    decreases s.len() - i,
{
    if st.0 == 0 && st.2.len() > 0 {
    } else if i >= s.len() {
    } else {
        lemma_rest_scan(s, i + 1, rest_step(st, s[i as int], (i + 1) as usize));
    }
}

/// The rest of a function found by `rest_extent` lies within `s`.
pub proof fn lemma_rest_extent(s: Seq<u8>)
    ensures
        match rest_extent(s) {
            Some((k, _)) => k <= s.len(),
            None => true,
        },
{
    lemma_rest_scan(s, 0, rest_start());
}

/// Moves `input` forward by `n` bytes.
pub fn advance(input: &mut &[u8], n: usize)
    requires
        n <= old(input)@.len(),
    ensures
        final(input)@ == old(input)@.skip(n as int),
{
    let rest = vstd::slice::slice_subrange(*input, n, input.len());
    *input = rest;
}

/// Loads a function of the form `Foo[...]` from the start of `input`.
///
/// On success it returns the bytes of the whole function and the indices of its
/// argument boundaries: argument `n` spans from `args[n]` (just after the `[` or
/// `,` before it) to `args[n+1]` (just after the `,` or `]` after it), and
/// `input` is left just after the function.  Strings are recognized, comments
/// are not.  If `input` ends first, all of it is consumed and the error is
/// `EofInFunction`.
pub fn load_function(input: &mut &[u8]) -> (r: Result<(Vec<u8>, Vec<usize>), ParseError>)
    ensures
        match function_extent(old(input)@) {
            Some((k, args)) => {
                &&& r matches Ok((s, a))
                &&& s@ == old(input)@.take(k as int)
                &&& a@ == args
                &&& final(input)@ == old(input)@.skip(k as int)
            },
            None => r == Err::<(Vec<u8>, Vec<usize>), ParseError>(ParseError::EofInFunction)
                && final(input)@ == Seq::<u8>::empty(),
        },
{
    let buf: &[u8] = *input;
    let n = buf.len();
    let mut s: Vec<u8> = Vec::new();
    let mut args: Vec<usize> = Vec::new();
    let mut depth: i128 = 0;
    let mut in_string = false;
    let mut idx: usize = 0;
    while idx < n && !(depth == 0 && args.len() > 0)
        invariant
            n == buf@.len(),
            buf@ == old(input)@,
            idx <= n,
            s@ == buf@.take(idx as int),
            -(idx as int) <= depth <= idx,
            function_scan(buf@, idx as nat, (depth as int, in_string, args@))
                == function_scan(buf@, 0, function_start()),
        decreases n - idx,
    {
        let c = buf[idx];
        s.push(c);
        idx = idx + 1;
        assert(s@ =~= buf@.take(idx as int));
        if c == QUOTE {
            in_string = !in_string;
        } else if in_string {
        } else if c == COMMA {
            if depth == 1 {
                args.push(idx);
            }
        } else if c == OPEN_BRACKET {
            if depth == 0 {
                args.push(idx);
            }
            depth = depth + 1;
        } else if c == CLOSE_BRACKET {
            if depth == 1 {
                args.push(idx);
            }
            depth = depth - 1;
        } else if c == OPEN_BRACE {
            depth = depth + 1;
        } else if c == CLOSE_BRACE {
            depth = depth - 1;
        }
    }
    if depth == 0 && args.len() > 0 {
        advance(input, idx);
        Ok((s, args))
    } else {
        advance(input, n);
        assert(old(input)@.skip(n as int) =~= Seq::<u8>::empty());
        Err(ParseError::EofInFunction)
    }
}

/// Loads the rest of a function `Foo[...]` when `input` starts somewhere inside
/// its brackets.
///
/// On success it returns the bytes up to and including the closing bracket and
/// the argument boundaries met on the way (the first one marks where the next
/// argument starts), and `input` is left just after them.  Strings are
/// recognized: brackets, braces and commas between quotes count for nothing.
/// Comments are not recognized.  If `input` ends with brackets still open, all
/// of it is consumed and the error is `EofInFunction`.
pub fn load_rest_of_function(input: &mut &[u8]) -> (r: Result<(Vec<u8>, Vec<usize>), ParseError>)
    ensures
        match rest_extent(old(input)@) {
            Some((k, args)) => {
                &&& r matches Ok((s, a))
                &&& s@ == old(input)@.take(k as int)
                &&& a@ == args
                &&& final(input)@ == old(input)@.skip(k as int)
            },
            None => r == Err::<(Vec<u8>, Vec<usize>), ParseError>(ParseError::EofInFunction)
                && final(input)@ == Seq::<u8>::empty(),
        },
{
    let buf: &[u8] = *input;
    let n = buf.len();
    let mut s: Vec<u8> = Vec::new();
    let mut args: Vec<usize> = Vec::new();
    let mut depth: i128 = 1;
    let mut in_string = false;
    let mut idx: usize = 0;
    while idx < n && !(depth == 0 && args.len() > 0)
        invariant
            n == buf@.len(),
            buf@ == old(input)@,
            idx <= n,
            s@ == buf@.take(idx as int),
            -(idx as int) <= depth <= idx + 1,
            rest_scan(buf@, idx as nat, (depth as int, in_string, args@))
                == rest_scan(buf@, 0, rest_start()),
        decreases n - idx,
    {
        let c = buf[idx];
        s.push(c);
        idx = idx + 1;
        assert(s@ =~= buf@.take(idx as int));
        if c == QUOTE {
            in_string = !in_string;
        } else if in_string {
        } else if c == COMMA {
            if depth == 1 {
                args.push(idx);
            }
        } else if c == OPEN_BRACKET {
            if depth == 0 {
                args.push(idx);
            }
            depth = depth + 1;
        } else if c == CLOSE_BRACKET {
            if depth == 1 {
                args.push(idx);
            }
            depth = depth - 1;
        } else if c == OPEN_BRACE {
            depth = depth + 1;
        } else if c == CLOSE_BRACE {
            depth = depth - 1;
        }
    }
    if depth > 0 && !(depth == 0 && args.len() > 0) {
        advance(input, n);
        assert(old(input)@.skip(n as int) =~= Seq::<u8>::empty());
        Err(ParseError::EofInFunction)
    } else {
        advance(input, idx);
        Ok((s, args))
    }
}

/// The effect of `read_consume_output` on input `s` and destination state `st`:
/// the outcome, how many bytes of `s` are consumed, and the new destination state.
pub open spec fn read_consume_output_spec<O: ByteSink>(s: Seq<u8>, st: O::V, len: nat)
    -> (Option<ParseError>, nat, O::V)
{
    if s.len() < len {
        (Some(ParseError::EofBeforeBytes), 0, st)
    } else {
        let (st2, err) = O::accept(st, s.take(len as int));
        match err {
            None => (None, len, st2),
            Some(e) => (Some(e), 0, st2),
        }
    }
}

/// Copies the first `len` bytes of `input` to `output` and consumes them.
///
/// If `input` holds fewer than `len` bytes, nothing happens and the error is
/// `EofBeforeBytes`; if the write fails, its error is returned and nothing is consumed.
pub fn read_consume_output<O: ByteSink>(input: &mut &[u8], output: &mut O, len: usize) -> (r: Result<(), ParseError>)
    ensures
        ({
            let (err, consumed, st) = read_consume_output_spec::<O>(old(input)@, old(output)@, len as nat);
            &&& r == outcome(err)
            &&& final(input)@ == old(input)@.skip(consumed as int)
            &&& final(output)@ == st
        }),
{
    if input.len() < len {
        assert(old(input)@.skip(0) =~= old(input)@);
        return Err(ParseError::EofBeforeBytes);
    }
    let head = vstd::slice::slice_subrange(*input, 0, len);
    match output.write_all(head) {
        Ok(()) => {
            advance(input, len);
            Ok(())
        },
        Err(e) => {
            assert(old(input)@.skip(0) =~= old(input)@);
            Err(e)
        },
    }
}

/// The outcome of `check_start` on input `s` and pattern `pat`.
pub open spec fn check_start_spec(s: Seq<u8>, pat: Seq<u8>) -> Result<bool, ParseError> {
    if s.len() < pat.len() {
        Err(ParseError::EofBeforeBytes)
    } else {
        Ok(s.take(pat.len() as int) == pat)
    }
}

/// Whether `input` starts with `pat`, without consuming anything.
///
/// If `input` is shorter than `pat`, the error is `EofBeforeBytes` rather than `false`.
pub fn check_start(input: &mut &[u8], pat: &[u8]) -> (r: Result<bool, ParseError>)
    ensures
        r == check_start_spec(old(input)@, pat@),
        final(input)@ == old(input)@,
{
    let buf: &[u8] = *input;
    if buf.len() < pat.len() {
        return Err(ParseError::EofBeforeBytes);
    }
    let n = pat.len();
    let mut k: usize = 0;
    while k < n
        invariant
            n == pat@.len(),
            n <= buf@.len(),
            buf@ == old(input)@,
            k <= n,
            forall|j: int| 0 <= j < k ==> buf@[j] == pat@[j],
        decreases n - k,
    {
        if buf[k] != pat[k] {
            assert(buf@.take(n as int)[k as int] != pat@[k as int]);
            assert(buf@.take(n as int) != pat@);
            return Ok(false);
        }
        k = k + 1;
    }
    assert(buf@.take(n as int) =~= pat@);
    Ok(true)
}

} // verus!

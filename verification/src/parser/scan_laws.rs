use vstd::prelude::*;
use crate::parser::patterns::{
    QUOTE, COMMA, OPEN_BRACKET, CLOSE_BRACKET, OPEN_BRACE, CLOSE_BRACE,
};
use crate::parser::utilities::{
    FunctionState, function_scan, function_step, function_done, function_start, function_extent,
    RestState, rest_scan, rest_step, rest_start, rest_extent,
};

verus! {

/// How many `"` bytes `s` holds.
pub open spec fn quote_count(s: Seq<u8>) -> nat
    decreases s.len(),
{
    if s.len() == 0 {
        0
    } else {
        quote_count(s.drop_last()) + if s.last() == QUOTE { 1nat } else { 0nat }
    }
}

/// Byte `j` of `s` lies outside every string: it is not a `"`, and an even
/// number of `"` come before it.
pub open spec fn outside_string(s: Seq<u8>, j: int) -> bool {
    quote_count(s.take(j)) % 2 == 0 && s[j] != QUOTE
}

/// The bracket depth in `s` before byte `j`: the brackets and braces outside
/// strings among the first `j` bytes, each opening one counting `+1` and each
/// closing one `-1`.
pub open spec fn depth_before(s: Seq<u8>, j: int) -> int
    decreases j,
{
    if j <= 0 {
        0
    } else {
        let d = depth_before(s, j - 1);
        let c = s[j - 1];
        if outside_string(s, j - 1) && (c == OPEN_BRACKET || c == OPEN_BRACE) {
            d + 1
        } else if outside_string(s, j - 1) && (c == CLOSE_BRACKET || c == CLOSE_BRACE) {
            d - 1
        } else {
            d
        }
    }
}

/// Byte `j` of `s` separates arguments of the function at the start of `s`:
/// outside strings, it is the `[` that opens the function, or a `,` or the `]`
/// at the function's own level.
pub open spec fn is_boundary(s: Seq<u8>, j: int) -> bool {
    &&& outside_string(s, j)
    &&& ((s[j] == OPEN_BRACKET && depth_before(s, j) == 0) || ((s[j] == COMMA || s[j] == CLOSE_BRACKET)
        && depth_before(s, j) == 1))
}

/// The argument boundaries among the first `j` bytes of `s`: one past each
/// boundary byte, in order.
pub open spec fn boundaries_before(s: Seq<u8>, j: int) -> Seq<usize>
    decreases j,
{
    if j <= 0 {
        Seq::empty()
    } else if is_boundary(s, j - 1) {
        boundaries_before(s, j - 1).push(j as usize)
    } else {
        boundaries_before(s, j - 1)
    }
}

/// The function at the start of `s` is closed after its first `j` bytes: it has
/// been opened, and the depth is back to zero.
pub open spec fn closed_at(s: Seq<u8>, j: int) -> bool {
    depth_before(s, j) == 0 && boundaries_before(s, j).len() > 0
}

/// The scan's state after the first `i` bytes, described without the scan.
spec fn scan_state(s: Seq<u8>, i: int) -> FunctionState {
    (depth_before(s, i), quote_count(s.take(i)) % 2 == 1, boundaries_before(s, i))
}

proof fn lemma_quote_count_step(s: Seq<u8>, i: int)
    requires
        0 <= i < s.len(),
    ensures
        quote_count(s.take(i + 1)) == quote_count(s.take(i)) + if s[i] == QUOTE { 1nat } else { 0nat },
{
    assert(s.take(i + 1).drop_last() =~= s.take(i));
}

/// One step of the scan moves its state from `i` bytes to `i + 1`.
proof fn lemma_scan_step(s: Seq<u8>, i: int)
    requires
        0 <= i < s.len(),
        s.len() <= usize::MAX,
    ensures
        function_step(scan_state(s, i), s[i], (i + 1) as usize) == scan_state(s, i + 1),
{
    lemma_quote_count_step(s, i);
}

proof fn lemma_scan_walk(s: Seq<u8>, i: int)
    requires
        0 <= i <= s.len(),
        s.len() <= usize::MAX,
    ensures
        match function_scan(s, i as nat, scan_state(s, i)) {
            Some((k, st)) => i <= k <= s.len() && closed_at(s, k as int) && st == scan_state(s, k as int)
                && forall|j: int| i <= j < k ==> !closed_at(s, j),
            None => forall|j: int| i <= j <= s.len() ==> !closed_at(s, j),
        },
    decreases s.len() - i,
{
    if function_done(scan_state(s, i)) {
    } else if i >= s.len() {
    } else {
        lemma_scan_step(s, i);
        lemma_scan_walk(s, i + 1);
    }
}

/// `load_function` loads a function up to the first point where it is closed,
/// with the brackets and braces inside strings counting for nothing, and its
/// argument boundaries are exactly those bytes: the `[` that opens it, and the
/// `,` and the `]` outside strings at its own level.  If the function is never
/// closed, nothing is found.
pub proof fn law_function_extent_is_first_close(s: Seq<u8>)
    requires
        s.len() <= usize::MAX,
    ensures
        match function_extent(s) {
            Some((k, args)) => {
                &&& k <= s.len()
                &&& closed_at(s, k as int)
                &&& args == boundaries_before(s, k as int)
                &&& forall|j: int| 0 <= j < k ==> !closed_at(s, j)
            },
            None => forall|j: int| 0 <= j <= s.len() ==> !closed_at(s, j),
        },
{
    assert(s.take(0) =~= Seq::<u8>::empty());
    assert(scan_state(s, 0) == function_start());
    lemma_scan_walk(s, 0);
}

/// Each boundary among the first `i` bytes is one past a boundary byte, and as
/// many boundaries come before that byte as its place in the list.
proof fn lemma_boundaries_elems(s: Seq<u8>, i: int)
    requires
        0 <= i <= s.len(),
        s.len() <= usize::MAX,
    ensures
        forall|a: int| 0 <= a < boundaries_before(s, i).len() ==> {
            let j = #[trigger] boundaries_before(s, i)[a] - 1;
            &&& 0 <= j < i
            &&& is_boundary(s, j)
            &&& boundaries_before(s, j).len() == a
        },
    decreases i,
{
    if i > 0 {
        lemma_boundaries_elems(s, i - 1);
        let b = boundaries_before(s, i - 1);
        if is_boundary(s, i - 1) {
            assert forall|a: int| 0 <= a < boundaries_before(s, i).len() implies {
                let j = #[trigger] boundaries_before(s, i)[a] - 1;
                &&& 0 <= j < i
                &&& is_boundary(s, j)
                &&& boundaries_before(s, j).len() == a
            } by {
                if a < b.len() {
                    assert(boundaries_before(s, i)[a] == b[a]);
                }
            }
        }
    }
}

/// `load_function` splits arguments only where the original does: every
/// argument boundary after the first lies just after a `,` or a `]` that is
/// outside any string (an even number of `"` come before it), so a comma or a
/// bracket inside a string never splits an argument.  The first boundary lies
/// just after the `[` that opens the function (or a `,` or `]` outside strings
/// when a brace opened before it).
pub proof fn law_load_function_splits_outside_strings(s: Seq<u8>)
    requires
        s.len() <= usize::MAX,
    ensures
        match function_extent(s) {
            Some((k, args)) => {
                &&& args.len() >= 1
                &&& (s[args[0] - 1] == OPEN_BRACKET || s[args[0] - 1] == COMMA || s[args[0] - 1]
                    == CLOSE_BRACKET)
                &&& quote_count(s.take(args[0] - 1)) % 2 == 0
                &&& forall|a: int| 1 <= a < args.len() ==> {
                    &&& (s[#[trigger] args[a] - 1] == COMMA || s[args[a] - 1] == CLOSE_BRACKET)
                    &&& quote_count(s.take(args[a] - 1)) % 2 == 0
                }
            },
            None => true,
        },
{
    law_function_extent_is_first_close(s);
    if let Some((k, args)) = function_extent(s) {
        lemma_boundaries_elems(s, k as int);
        let j0 = args[0] - 1;
        assert(is_boundary(s, j0));
        assert forall|a: int| 1 <= a < args.len() implies {
            &&& (s[#[trigger] args[a] - 1] == COMMA || s[args[a] - 1] == CLOSE_BRACKET)
            &&& quote_count(s.take(args[a] - 1)) % 2 == 0
        } by {
            let j = args[a] - 1;
            assert(is_boundary(s, j));
            if s[j] == OPEN_BRACKET {
                assert(closed_at(s, j));
            }
        }
    }
}

/// The bracket depth before byte `j` of text that starts inside one pair of
/// brackets: one more than the depth counted from the start of `s`.
pub open spec fn rest_depth_before(s: Seq<u8>, j: int) -> int {
    1 + depth_before(s, j)
}

/// Byte `j` of `s` separates arguments of the function that `s` starts inside
/// of: outside strings, a `,` or a `]` at the function's own level, or a `[`
/// met at depth zero.
pub open spec fn is_rest_boundary(s: Seq<u8>, j: int) -> bool {
    &&& outside_string(s, j)
    &&& ((s[j] == OPEN_BRACKET && rest_depth_before(s, j) == 0) || ((s[j] == COMMA || s[j]
        == CLOSE_BRACKET) && rest_depth_before(s, j) == 1))
}

/// The argument boundaries among the first `j` bytes of `s`, for text that
/// starts inside a function.
pub open spec fn rest_boundaries_before(s: Seq<u8>, j: int) -> Seq<usize>
    decreases j,
{
    if j <= 0 {
        Seq::empty()
    } else if is_rest_boundary(s, j - 1) {
        rest_boundaries_before(s, j - 1).push(j as usize)
    } else {
        rest_boundaries_before(s, j - 1)
    }
}

/// The function that `s` starts inside of is closed after the first `j` bytes
/// of `s`: the depth is down to zero and a boundary has been met.
pub open spec fn rest_closed_at(s: Seq<u8>, j: int) -> bool {
    rest_depth_before(s, j) == 0 && rest_boundaries_before(s, j).len() > 0
}

spec fn rest_state(s: Seq<u8>, i: int) -> RestState {
    (rest_depth_before(s, i), quote_count(s.take(i)) % 2 == 1, rest_boundaries_before(s, i))
}

proof fn lemma_rest_walk(s: Seq<u8>, i: int)
    requires
        0 <= i <= s.len(),
        s.len() <= usize::MAX,
    ensures
        match rest_scan(s, i as nat, rest_state(s, i)) {
            Some((k, st)) => i <= k <= s.len() && st == rest_state(s, k as int) && (rest_closed_at(
                s,
                k as int,
            ) || (k == s.len() && rest_depth_before(s, k as int) <= 0)) && forall|j: int|
                i <= j < k ==> !rest_closed_at(s, j),
            None => rest_depth_before(s, s.len() as int) > 0 && forall|j: int|
                i <= j <= s.len() ==> !rest_closed_at(s, j),
        },
    decreases s.len() - i,
{
    if rest_closed_at(s, i) {
    } else if i >= s.len() {
    } else {
        lemma_quote_count_step(s, i);
        assert(rest_step(rest_state(s, i), s[i], (i + 1) as usize) == rest_state(s, i + 1));
        lemma_rest_walk(s, i + 1);
    }
}

/// `load_rest_of_function` loads up to the first point where the function it
/// starts inside of is closed, with the brackets and braces inside strings
/// counting for nothing (or to the end of the input if the depth never rises
/// above zero again), and its argument boundaries are exactly the `,` and `]`
/// outside strings at the function's own level (and a `[` met at depth zero).
/// When the input ends with brackets still open, nothing is found.
pub proof fn law_rest_extent_is_first_close(s: Seq<u8>)
    requires
        s.len() <= usize::MAX,
    ensures
        match rest_extent(s) {
            Some((k, args)) => {
                &&& k <= s.len()
                &&& args == rest_boundaries_before(s, k as int)
                &&& (rest_closed_at(s, k as int) || (k == s.len() && rest_depth_before(s, k as int) <= 0))
                &&& forall|j: int| 0 <= j < k ==> !rest_closed_at(s, j)
            },
            None => rest_depth_before(s, s.len() as int) > 0 && forall|j: int|
                0 <= j <= s.len() ==> !rest_closed_at(s, j),
        },
{
    assert(s.take(0) =~= Seq::<u8>::empty());
    assert(rest_state(s, 0) == rest_start());
    lemma_rest_walk(s, 0);
}

} // verus!

use vstd::prelude::*;
use crate::error::ParseError;
use crate::sink::{ByteSink, outcome};
use crate::parser::patterns::{
    CLOSE_BRACE, CLOSE_BRACKET, OPEN_BRACE, cell_open, cell_open_bytes, cell_group_data_open,
    cell_group_data_open_bytes, message_style, message_style_bytes, output_style, output_style_bytes,
    print_temporary_style, print_temporary_style_bytes, print_style, print_style_bytes,
    cell_change_times, cell_change_times_bytes, expression_uuid, expression_uuid_bytes,
};
use crate::parser::search::{find, find_byte, contains, first_match, occurs_in, lemma_first_match};
use crate::parser::utilities::{
    boundaries_within, advance, check_start, load_function, read_consume_output, read_consume_output_spec,
    function_extent, extent_len, lemma_function_extent, lemma_function_extent_len,
};
use crate::parser::cell_group_data::{group_data_spec, parse_cell_group_data};

verus! {

/// The style argument of a cell marks it as one that is dropped: it mentions
/// `"Message"`, `"Output"`, `"PrintTemporary"` or `"Print"`.
pub open spec fn is_dropped_style(arg: Seq<u8>) -> bool {
    ||| occurs_in(arg, message_style())
    ||| occurs_in(arg, output_style())
    ||| occurs_in(arg, print_temporary_style())
    ||| occurs_in(arg, print_style())
}

/// An optional argument of a cell is metadata that is dropped: it mentions
/// `CellChangeTimes` or `ExpressionUUID`.
pub open spec fn is_dropped_option(arg: Seq<u8>) -> bool {
    ||| occurs_in(arg, cell_change_times())
    ||| occurs_in(arg, expression_uuid())
}

/// What is written for the optional arguments of a cell from argument `i` on,
/// followed by the closing `]`: each argument that is not dropped metadata, with
/// the comma before it.
pub open spec fn cell_options(cb: Seq<u8>, args: Seq<usize>, i: int) -> Seq<u8>
    decreases args.len() - i,
{
    if i < 0 || i + 1 >= args.len() {
        seq![CLOSE_BRACKET]
    } else {
        let kept = if is_dropped_option(cb.subrange(args[i] as int, args[i + 1] - 1)) {
            Seq::empty()
        } else {
            cb.subrange(args[i] - 1, args[i + 1] - 1)
        };
        kept + cell_options(cb, args, i + 1)
    }
}

/// Where the search for `CellGroupData[` in the first argument of a cell stops:
/// at the end of the argument, but no more than twice the length of
/// `CellGroupData[` into it.
pub open spec fn group_window_end(a0: int, a1: int) -> int {
    if a1 - a0 <= 28 { a1 } else { a0 + 28 }
}

/// What `parse_cell` does on input `t`: the outcome (whether the cell was kept),
/// the number of bytes consumed and the bytes written.
///
/// A cell `Cell[contents, "style", options...]` whose style is dropped writes
/// nothing and gives `Ok(false)`.  Otherwise the contents and style are written
/// (with a `CellGroupData[...]` in the contents filtered in turn), then every
/// option that is not dropped metadata, then `]`, and the result is `Ok(true)`.
pub open spec fn cell_spec(t: Seq<u8>) -> (Result<bool, ParseError>, nat, Seq<u8>)
    decreases t.len(), 1nat,
{
    if t.len() < cell_open().len() {
        (Err(ParseError::EofBeforeBytes), 0, Seq::empty())
    } else if t.take(cell_open().len() as int) != cell_open() {
        (Err(ParseError::NotCell), 0, Seq::empty())
    } else if t.len() > usize::MAX {
        // No slice is this long.
        (Err(ParseError::EofInFunction), t.len(), Seq::empty())
    } else {
        match function_extent(t) {
            None => (Err(ParseError::EofInFunction), t.len(), Seq::empty()),
            Some((k, args)) => {
                proof {
                    lemma_function_extent(t);
                }
                let cb = t.take(k as int);
                let n = args.len() - 1;
                if n >= 2 && is_dropped_style(cb.subrange(args[1] as int, args[2] as int)) {
                    (Ok(false), k, Seq::empty())
                } else if n == 0 {
                    (Err(ParseError::CellWithoutArgument), k, Seq::empty())
                } else {
                    let a0 = args[0] as int;
                    let a1 = args[1] as int;
                    let window = cb.subrange(a0, group_window_end(a0, a1));
                    let tail = cell_options(cb, args, 2);
                    match first_match(window, cell_group_data_open()) {
                        None => {
                            let head = if n == 1 { cb.take(a1 - 1) } else { cb.take(args[2] - 1) };
                            (Ok(true), k, head + tail)
                        },
                        Some(p) => {
                            proof {
                                lemma_first_match(window, cell_group_data_open());
                            }
                            let head = cb.take(a0 + p);
                            let (gerr, _, gw) = group_data_spec(cb.subrange(a0 + p, a1 - 1));
                            match gerr {
                                Some(e) => (Err(e), k, head + gw),
                                None => {
                                    let mid = if n == 1 {
                                        Seq::empty()
                                    } else {
                                        cb.subrange(a1 - 1, args[2] - 1)
                                    };
                                    (Ok(true), k, head + gw + mid + tail)
                                },
                            }
                        },
                    }
                }
            },
        }
    }
}

/// The next cell and the next closing brace in `s`, as `parse_cell_list` looks for them.
pub open spec fn next_cell(s: Seq<u8>) -> Option<int> {
    first_match(s, cell_open())
}

/// The next closing brace in `s`.
pub open spec fn next_brace(s: Seq<u8>) -> Option<int> {
    first_match(s, seq![CLOSE_BRACE])
}

/// The list ends before another cell starts: a `}` comes first, or there is no
/// further `Cell[` at all.
pub open spec fn brace_first(s: Seq<u8>) -> bool {
    match (next_cell(s), next_brace(s)) {
        (None, Some(b)) => true,
        (Some(c), Some(b)) => b < c,
        _ => false,
    }
}

/// What the loop of `parse_cell_list` does on the rest `s` of the list with the
/// destination in state `st`; `start` says that no cell has been kept yet.
///
/// Before each cell, the text since the previous cell (its separating comma) is
/// held back together with the cell, and written only if the cell is kept; at
/// the start of the list that text is dropped.  The loop ends after writing the
/// text up to and including the closing `}`.
pub open spec fn cell_loop_spec<O: ByteSink>(s: Seq<u8>, start: bool, st: O::V) -> (Option<ParseError>, nat, O::V)
    decreases s.len(), 2nat,
{
    if brace_first(s) {
        read_consume_output_spec::<O>(s, st, (next_brace(s).unwrap() + 1) as nat)
    } else {
        match next_cell(s) {
            None => (Some(ParseError::NoCellOrListEnd), 0, st),
            Some(c) => {
                proof {
                    lemma_first_match(s, cell_open());
                    lemma_function_extent_len(s.skip(c));
                }
                let t = s.skip(c);
                let pre = if start { Seq::empty() } else { s.take(c) };
                let (r, n, w) = cell_spec(t);
                match r {
                    Err(e) => (Some(e), (c + n) as nat, st),
                    Ok(keep) => {
                        let k = extent_len(t);
                        if keep {
                            let (st1, werr) = O::accept(st, pre + w);
                            match werr {
                                Some(e) => (Some(e), (c + k) as nat, st1),
                                None => {
                                    let (e2, n2, st2) = cell_loop_spec::<O>(s.skip(c + k), false, st1);
                                    (e2, (c + k + n2) as nat, st2)
                                },
                            }
                        } else {
                            let (e2, n2, st2) = cell_loop_spec::<O>(s.skip(c + k), start, st);
                            (e2, (c + k + n2) as nat, st2)
                        }
                    },
                }
            },
        }
    }
}

/// What `parse_cell_list` does on input `s` with the destination in state `st`.
///
/// The list must start with `{`.  The text up to the first cell is written, then
/// each cell that is kept (with the comma before it, except for the first one
/// kept), then the text up to and including the closing `}`.
pub open spec fn cell_list_spec<O: ByteSink>(s: Seq<u8>, st: O::V) -> (Option<ParseError>, nat, O::V)
    decreases s.len(), 3nat,
{
    if s.len() < 1 {
        (Some(ParseError::EofBeforeBytes), 0, st)
    } else if s[0] != OPEN_BRACE {
        (Some(ParseError::NotCellList), 0, st)
    } else if brace_first(s) {
        read_consume_output_spec::<O>(s, st, (next_brace(s).unwrap() + 1) as nat)
    } else {
        match next_cell(s) {
            None => (Some(ParseError::NoCellOrListEnd), 0, st),
            Some(c) => {
                proof {
                    lemma_first_match(s, cell_open());
                }
                let (e1, n1, st1) = read_consume_output_spec::<O>(s, st, c as nat);
                match e1 {
                    Some(e) => (Some(e), n1, st1),
                    None => {
                        let (e2, n2, st2) = cell_loop_spec::<O>(s.skip(c), true, st1);
                        (e2, (c + n2) as nat, st2)
                    },
                }
            },
        }
    }
}

/// Parses a list of cells `{Cell[...], Cell[...], ...}` at the start of
/// `input`, writing it to `output` without its output cells.
///
/// `input` must start with `{`; everything up to and including the closing `}`
/// is consumed.  When a cell is dropped, the comma separating it from the
/// previous cell is dropped too, so that no dangling comma is left.
#[verifier::rlimit(50)]
pub fn parse_cell_list<O: ByteSink>(input: &mut &[u8], output: &mut O) -> (r: Result<(), ParseError>)
    ensures
        ({
            let (err, consumed, st) = cell_list_spec::<O>(old(input)@, old(output)@);
            &&& r == outcome(err)
            &&& consumed <= old(input)@.len()
            &&& final(input)@ == old(input)@.skip(consumed as int)
            &&& final(output)@ == st
        }),
    decreases old(input)@.len(), 3nat,
{
    let ghost s0 = old(input)@;
    let ghost st0 = old(output)@;
    let _len = input.len();
    proof {
        assert(s0.skip(0) =~= s0);
    }
    let open: [u8; 1] = [OPEN_BRACE];
    match check_start(input, &open) {
        Err(e) => {
            return Err(e);
        },
        Ok(false) => {
            assert(s0.take(1) =~= seq![s0[0]]);
            assert(open@ =~= seq![OPEN_BRACE]);
            return Err(ParseError::NotCellList);
        },
        Ok(true) => {
            assert(s0.take(1) =~= seq![s0[0]]);
            assert(open@ =~= seq![OPEN_BRACE]);
            assert(s0.take(1)[0] == s0[0]);
        },
    }
    let cell_pat = cell_open_bytes();
    let first_cell = find(*input, &cell_pat);
    let first_brace = find_byte(*input, CLOSE_BRACE);
    proof {
        lemma_first_match(s0, cell_open());
        lemma_first_match(s0, seq![CLOSE_BRACE]);
    }
    let c = match (first_cell, first_brace) {
        (None, Some(b)) => {
            return read_consume_output(input, output, b + 1);
        },
        (Some(c), Some(b)) if b < c => {
            return read_consume_output(input, output, b + 1);
        },
        (None, None) => {
            return Err(ParseError::NoCellOrListEnd);
        },
        (Some(c), _) => c,
    };
    proof {
        assert(!brace_first(s0));
        assert(next_cell(s0) == Some(c as int));
        assert(s0.len() >= 1 && s0[0] == OPEN_BRACE);
    }
    match read_consume_output(input, output, c) {
        Err(e) => {
            return Err(e);
        },
        Ok(()) => {},
    }
    proof {
        let (e1, n1, st1) = read_consume_output_spec::<O>(s0, st0, c as nat);
        assert(e1 is None);
        assert(n1 == c);
        assert(output@ == st1);
        assert(input@ == s0.skip(c as int));
    }
    let mut start = true;
    let ghost mut done: nat = c as nat;
    loop
        invariant
            s0 == old(input)@,
            st0 == old(output)@,
            cell_pat@ == cell_open(),
            done <= s0.len(),
            input@ == s0.skip(done as int),
            ({
                let (e, n, st) = cell_loop_spec::<O>(input@, start, output@);
                let total = cell_list_spec::<O>(s0, st0);
                &&& e == total.0
                &&& done + n == total.1
                &&& st == total.2
            }),
        decreases input@.len(),
    {
        let ghost s = input@;
        let ghost st = output@;
        let _len = input.len();
        let next_cell_pos = find(*input, &cell_pat);
        let next_brace_pos = find_byte(*input, CLOSE_BRACE);
        proof {
            lemma_first_match(s, cell_open());
            lemma_first_match(s, seq![CLOSE_BRACE]);
            assert(s.skip(0) =~= s);
        }
        let c = match (next_cell_pos, next_brace_pos) {
            (None, Some(b)) => {
                let r = read_consume_output(input, output, b + 1);
                proof {
                    let n = read_consume_output_spec::<O>(s, st, (b + 1) as nat).1;
                    assert(s0.skip(done as int).skip(n as int) =~= s0.skip((done + n) as int));
                }
                return r;
            },
            (Some(c), Some(b)) if b < c => {
                let r = read_consume_output(input, output, b + 1);
                proof {
                    let n = read_consume_output_spec::<O>(s, st, (b + 1) as nat).1;
                    assert(s0.skip(done as int).skip(n as int) =~= s0.skip((done + n) as int));
                }
                return r;
            },
            (None, None) => {
                return Err(ParseError::NoCellOrListEnd);
            },
            (Some(c), _) => c,
        };
        proof {
            assert(!brace_first(s));
            assert(next_cell(s) == Some(c as int));
        }
        let mut cell_buf: Vec<u8> = Vec::new();
        if start {
            advance(input, c);
        } else {
            let _ = read_consume_output(input, &mut cell_buf, c);
        }
        let ghost tcell = input@;
        let ghost pre = cell_buf@;
        proof {
            lemma_function_extent_len(tcell);
            assert(s.skip(c as int) == tcell);
            assert(pre == (if start { Seq::<u8>::empty() } else { s.take(c as int) }));
            lemma_cell_spec_consumed(tcell);
        }
        let res = parse_cell(input, &mut cell_buf);
        let ghost n = cell_spec(tcell).1;
        let ghost w = cell_spec(tcell).2;
        proof {
            assert(s0.skip(done as int).skip(c as int) =~= s0.skip(done + c));
            assert(s0.skip(done + c).skip(n as int) =~= s0.skip(done + c + n));
            assert(cell_buf@ == pre + w);
        }
        match res {
            Err(e) => {
                return Err(e);
            },
            Ok(keep) => {
                proof {
                    assert(n == extent_len(tcell));
                    assert(input@ == s.skip(c + n));
                    done = (done + c + n) as nat;
                }
                if keep {
                    match output.write_all(cell_buf.as_slice()) {
                        Err(e) => {
                            return Err(e);
                        },
                        Ok(()) => {},
                    }
                    start = false;
                }
            },
        }
    }
}

/// The number of bytes `parse_cell` consumes is at most the length of its
/// input, and, when it succeeds, is the length of the cell.
pub proof fn lemma_cell_spec_consumed(t: Seq<u8>)
    ensures
        cell_spec(t).1 <= t.len(),
        cell_spec(t).0 is Ok ==> cell_spec(t).1 == extent_len(t) && extent_len(t) >= 1,
{
    lemma_function_extent_len(t);
}

/// Into a vector, the cell-list loop appends to whatever the vector held.
pub proof fn lemma_cell_loop_vec(s: Seq<u8>, start: bool, st: Seq<u8>)
    ensures
        ({
            let x = cell_loop_spec::<Vec<u8>>(s, start, Seq::empty());
            cell_loop_spec::<Vec<u8>>(s, start, st) == (x.0, x.1, st + x.2)
        }),
    decreases s.len(),
{
    let e = Seq::<u8>::empty();
    if brace_first(s) {
        assert(e + s.take(next_brace(s).unwrap() + 1) =~= s.take(next_brace(s).unwrap() + 1));
    } else {
        match next_cell(s) {
            None => {
                assert(st + e =~= st);
            },
            Some(c) => {
                lemma_first_match(s, cell_open());
                lemma_function_extent_len(s.skip(c));
                let t = s.skip(c);
                let pre = if start { Seq::empty() } else { s.take(c) };
                let (r, n, w) = cell_spec(t);
                match r {
                    Err(_) => {
                        assert(st + e =~= st);
                    },
                    Ok(keep) => {
                        let k = extent_len(t);
                        if keep {
                            lemma_cell_loop_vec(s.skip(c + k), false, st + (pre + w));
                            lemma_cell_loop_vec(s.skip(c + k), false, e + (pre + w));
                            let x = cell_loop_spec::<Vec<u8>>(s.skip(c + k), false, e);
                            assert(st + (pre + w) + x.2 =~= st + ((e + (pre + w)) + x.2));
                        } else {
                            lemma_cell_loop_vec(s.skip(c + k), start, st);
                        }
                    },
                }
            },
        }
    }
}

/// Into a vector, parsing a list of cells appends to whatever the vector held.
pub proof fn lemma_cell_list_vec(s: Seq<u8>, st: Seq<u8>)
    ensures
        ({
            let x = cell_list_spec::<Vec<u8>>(s, Seq::empty());
            cell_list_spec::<Vec<u8>>(s, st) == (x.0, x.1, st + x.2)
        }),
{
    let e = Seq::<u8>::empty();
    if s.len() < 1 || s[0] != OPEN_BRACE {
        assert(st + e =~= st);
    } else if brace_first(s) {
        assert(e + s.take(next_brace(s).unwrap() + 1) =~= s.take(next_brace(s).unwrap() + 1));
    } else {
        match next_cell(s) {
            None => {
                assert(st + e =~= st);
            },
            Some(c) => {
                lemma_first_match(s, cell_open());
                lemma_cell_loop_vec(s.skip(c), true, st + s.take(c));
                lemma_cell_loop_vec(s.skip(c), true, e + s.take(c));
                let x = cell_loop_spec::<Vec<u8>>(s.skip(c), true, e);
                assert(st + s.take(c) + x.2 =~= st + ((e + s.take(c)) + x.2));
            },
        }
    }
}

/// Whether the style argument `arg` marks a cell that is dropped.
fn is_dropped_style_exec(arg: &[u8]) -> (r: bool)
    ensures
        r == is_dropped_style(arg@),
{
    let p1 = message_style_bytes();
    let p2 = output_style_bytes();
    let p3 = print_temporary_style_bytes();
    let p4 = print_style_bytes();
    contains(arg, &p1) || contains(arg, &p2) || contains(arg, &p3) || contains(arg, &p4)
}

/// Whether the optional argument `arg` is metadata that is dropped.
fn is_dropped_option_exec(arg: &[u8]) -> (r: bool)
    ensures
        r == is_dropped_option(arg@),
{
    let p1 = cell_change_times_bytes();
    let p2 = expression_uuid_bytes();
    contains(arg, &p1) || contains(arg, &p2)
}

/// Parses a `Cell[...]` at the start of `input` and writes it to `output`
/// unless it is an output cell, removing its metadata.
///
/// A cell takes the form `Cell[contents]` or `Cell[contents, "style", options...]`.
/// Cells whose style mentions `"Output"`, `"Print"`, `"PrintTemporary"` or
/// `"Message"` are consumed without writing anything, and the result is
/// `Ok(false)`.  Otherwise the result is `Ok(true)`; a `CellGroupData[` near the
/// start of the contents is filtered by `parse_cell_group_data`, and the options
/// `CellChangeTimes` and `ExpressionUUID` are dropped.
#[verifier::rlimit(60)]
pub fn parse_cell(input: &mut &[u8], output: &mut Vec<u8>) -> (r: Result<bool, ParseError>)
    ensures
        ({
            let (res, consumed, w) = cell_spec(old(input)@);
            &&& r == res
            &&& consumed <= old(input)@.len()
            &&& final(input)@ == old(input)@.skip(consumed as int)
            &&& final(output)@ == old(output)@ + w
        }),
    decreases old(input)@.len(), 1nat,
{
    let ghost t = old(input)@;
    let ghost out0 = old(output)@;
    let _len = input.len();
    proof {
        lemma_function_extent(t);
        assert(t.skip(0) =~= t);
        assert(out0 + Seq::<u8>::empty() =~= out0);
    }
    let pat = cell_open_bytes();
    match check_start(input, &pat) {
        Err(e) => {
            return Err(e);
        },
        Ok(false) => {
            return Err(ParseError::NotCell);
        },
        Ok(true) => {},
    }
    let (cb, args) = match load_function(input) {
        Ok(x) => x,
        Err(e) => {
            return Err(e);
        },
    };
    let ghost k = function_extent(t).unwrap().0;
    let num_args = args.len() - 1;
    let cbs = cb.as_slice();
    if num_args >= 2 {
        let style = vstd::slice::slice_subrange(cbs, args[1], args[2]);
        if is_dropped_style_exec(style) {
            return Ok(false);
        }
    }
    if num_args == 0 {
        return Err(ParseError::CellWithoutArgument);
    }
    let a0 = args[0];
    let a1 = args[1];
    let wend = if a1 - a0 <= 28 { a1 } else { a0 + 28 };
    let window = vstd::slice::slice_subrange(cbs, a0, wend);
    let gpat = cell_group_data_open_bytes();
    let found = find(window, &gpat);
    proof {
        lemma_first_match(window@, cell_group_data_open());
    }
    match found {
        None => {
            let end = if num_args == 1 { a1 - 1 } else { args[2] - 1 };
            let _ = output.write_all(vstd::slice::slice_subrange(cbs, 0, end));
        },
        Some(p) => {
            let _ = output.write_all(vstd::slice::slice_subrange(cbs, 0, a0 + p));
            let mut sub = vstd::slice::slice_subrange(cbs, a0 + p, a1 - 1);
            let ghost out1 = output@;
            match parse_cell_group_data(&mut sub, output) {
                Err(e) => {
                    return Err(e);
                },
                Ok(()) => {},
            }
            if num_args > 1 {
                let _ = output.write_all(vstd::slice::slice_subrange(cbs, a1 - 1, args[2] - 1));
            }
        },
    }
    let ghost out_head = output@;
    let mut i: usize = 2;
    while i < num_args
        invariant
            num_args == args@.len() - 1,
            2 <= i,
            cbs@ == cb@,
            boundaries_within(args@, cb@.len() as int),
            output@ + cell_options(cb@, args@, i as int) == out_head + cell_options(cb@, args@, 2),
        decreases num_args - i,
    {
        let arg = vstd::slice::slice_subrange(cbs, args[i], args[i + 1] - 1);
        if !is_dropped_option_exec(arg) {
            let _ = output.write_all(vstd::slice::slice_subrange(cbs, args[i] - 1, args[i + 1] - 1));
        }
        i = i + 1;
    }
    let close: [u8; 1] = [CLOSE_BRACKET];
    assert(close@ =~= seq![CLOSE_BRACKET]);
    let _ = output.write_all(&close);
    Ok(true)
}

} // verus!

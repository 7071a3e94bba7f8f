use vstd::prelude::*;
use crate::error::ParseError;
use crate::parser::patterns::{
    COMMA, CLOSE_BRACKET, OPEN_BRACKET, OPEN_BRACE, cell_open, cell_group_data_open, cell_change_times,
    expression_uuid,
};
use crate::parser::search::{first_match, matches_at, occurs_in, lemma_first_match};
use crate::parser::utilities::{
    FunctionState, function_scan, function_step, function_done, function_start, function_extent,
    extent_len, boundaries_within, lemma_function_extent, lemma_function_extent_len,
};
use crate::parser::cell::{
    cell_spec, cell_options, is_dropped_style, is_dropped_option, group_window_end, brace_first,
    next_cell,
};
use crate::parser::cell_group_data::group_start_spec;

verus! {

/// No byte of `m` is `b`.
pub open spec fn avoids(m: Seq<u8>, b: u8) -> bool {
    forall|k: int| 0 <= k < m.len() ==> #[trigger] m[k] != b
}

/// A cell that `parse_cell` keeps at the start of `t` is free of output and
/// metadata: its style is not an output style, and what it writes after its
/// contents and style (its options and closing `]`) mentions neither
/// `CellChangeTimes` nor `ExpressionUUID`.
pub open spec fn kept_cell_is_clean(t: Seq<u8>) -> bool {
    cell_spec(t).0 == Ok::<bool, ParseError>(true) ==> {
        let (k, args) = function_extent(t).unwrap();
        let cb = t.take(k as int);
        let tail = cell_options(cb, args, 2);
        &&& (args.len() >= 3 ==> !is_dropped_style(cb.subrange(args[1] as int, args[2] as int)))
        &&& !occurs_in(tail, cell_change_times())
        &&& !occurs_in(tail, expression_uuid())
    }
}

/// The cell at the start of `t` and every cell that the parser keeps inside it,
/// at any depth, are clean in the sense of `kept_cell_is_clean`.
pub open spec fn cell_clean_deep(t: Seq<u8>) -> bool
    decreases t.len(), 1nat,
{
    kept_cell_is_clean(t) && if t.len() < cell_open().len() || t.take(cell_open().len() as int)
        != cell_open() || t.len() > usize::MAX {
        true
    } else {
        match function_extent(t) {
            None => true,
            Some((k, args)) => {
                proof {
                    lemma_function_extent(t);
                }
                let cb = t.take(k as int);
                let n = args.len() - 1;
                if (n >= 2 && is_dropped_style(cb.subrange(args[1] as int, args[2] as int))) || n == 0 {
                    true
                } else {
                    let a0 = args[0] as int;
                    let a1 = args[1] as int;
                    let window = cb.subrange(a0, group_window_end(a0, a1));
                    match first_match(window, cell_group_data_open()) {
                        None => true,
                        Some(p) => {
                            proof {
                                lemma_first_match(window, cell_group_data_open());
                            }
                            group_clean_deep(cb.subrange(a0 + p, a1 - 1))
                        },
                    }
                }
            },
        }
    }
}

/// Every cell that the parser keeps in the cell group at the start of `u`, at
/// any depth, is clean.
pub open spec fn group_clean_deep(u: Seq<u8>) -> bool
    decreases u.len(), 4nat,
{
    if u.len() < cell_group_data_open().len() || u.take(cell_group_data_open().len() as int)
        != cell_group_data_open() {
        true
    } else {
        proof {
            lemma_first_match(u, seq![OPEN_BRACE]);
        }
        list_clean_deep(u.skip(group_start_spec(u).1 as int))
    }
}

/// Every cell that the parser keeps in the list of cells at the start of `s`,
/// at any depth, is clean.
pub open spec fn list_clean_deep(s: Seq<u8>) -> bool
    decreases s.len(), 3nat,
{
    if s.len() < 1 || s[0] != OPEN_BRACE || brace_first(s) {
        true
    } else {
        match next_cell(s) {
            None => true,
            Some(c) => {
                proof {
                    lemma_first_match(s, cell_open());
                }
                loop_clean_deep(s.skip(c))
            },
        }
    }
}

/// Every cell that the parser keeps in the rest `s` of a list, at any depth, is clean.
pub open spec fn loop_clean_deep(s: Seq<u8>) -> bool
    decreases s.len(), 2nat,
{
    if brace_first(s) {
        true
    } else {
        match next_cell(s) {
            None => true,
            Some(c) => {
                proof {
                    lemma_first_match(s, cell_open());
                    lemma_function_extent_len(s.skip(c));
                }
                let t = s.skip(c);
                cell_clean_deep(t) && match cell_spec(t).0 {
                    Err(_) => true,
                    Ok(_) => loop_clean_deep(s.skip(c + extent_len(t))),
                }
            },
        }
    }
}

/// Every argument boundary after the first that the scan of a function records
/// follows a `,` or a `]`.
proof fn lemma_scan_boundaries(s: Seq<u8>, i: nat, st: FunctionState)
    requires
        i <= s.len(),
        s.len() <= usize::MAX,
        forall|j: int| 1 <= j < st.2.len() ==> 1 <= #[trigger] st.2[j] <= i && (s[st.2[j] - 1] == COMMA
            || s[st.2[j] - 1] == CLOSE_BRACKET),
    ensures
        match function_scan(s, i, st) {
            Some((k, st2)) => forall|j: int| 1 <= j < st2.2.len() ==> 1 <= #[trigger] st2.2[j] <= k && (
            s[st2.2[j] - 1] == COMMA || s[st2.2[j] - 1] == CLOSE_BRACKET),
            None => true,
        },
    decreases s.len() - i,
{
    if !function_done(st) && i < s.len() {
        let st2 = function_step(st, s[i as int], (i + 1) as usize);
        let c = s[i as int];
        assert forall|j: int| 1 <= j < st2.2.len() implies 1 <= #[trigger] st2.2[j] <= i + 1 && (s[st2.2[j]
            - 1] == COMMA || s[st2.2[j] - 1] == CLOSE_BRACKET) by {
            if j < st.2.len() {
                assert(st2.2[j] == st.2[j]);
            } else {
                assert(st2.2.len() == st.2.len() + 1);
                assert(st2.2[j] == i + 1);
                if c == OPEN_BRACKET {
                    assert(st.2.len() == 0);
                }
            }
        }
        lemma_scan_boundaries(s, i + 1, st2);
    }
}

/// No occurrence of `m` runs across the join of `x` and `y` when one of the
/// two bytes at the join is not in `m`.
proof fn lemma_join_avoids(x: Seq<u8>, y: Seq<u8>, m: Seq<u8>)
    requires
        m.len() > 0,
        !occurs_in(x, m),
        !occurs_in(y, m),
        (x.len() > 0 && avoids(m, x.last())) || (y.len() > 0 && avoids(m, y[0])),
    ensures
        !occurs_in(x + y, m),
{
    let xy = x + y;
    let n = x.len() as int;
    let l = m.len() as int;
    assert forall|j: int| !matches_at(xy, m, j) by {
        if matches_at(xy, m, j) {
            if j + l <= n {
                assert(x.subrange(j, j + l) =~= xy.subrange(j, j + l));
                assert(matches_at(x, m, j));
            } else if j >= n {
                assert(y.subrange(j - n, j - n + l) =~= xy.subrange(j, j + l));
                assert(matches_at(y, m, j - n));
            } else {
                assert(xy.subrange(j, j + l)[n - 1 - j] == xy[n - 1]);
                assert(xy.subrange(j, j + l)[n - j] == xy[n]);
                assert(xy[n - 1] == x.last());
                assert(xy[n] == y[0]);
            }
        }
    }
}

/// What `cell_options` writes from argument `i` on starts with a `,` or a `]`.
proof fn lemma_options_first(cb: Seq<u8>, args: Seq<usize>, i: int)
    requires
        i >= 1,
        boundaries_within(args, cb.len() as int),
        forall|j: int| 1 <= j < args.len() ==> cb[#[trigger] args[j] - 1] == COMMA || cb[args[j] - 1]
            == CLOSE_BRACKET,
    ensures
        cell_options(cb, args, i).len() > 0,
        cell_options(cb, args, i)[0] == COMMA || cell_options(cb, args, i)[0] == CLOSE_BRACKET,
    decreases args.len() - i,
{
    if i + 1 < args.len() {
        lemma_options_first(cb, args, i + 1);
        let seg = cb.subrange(args[i] - 1, args[i + 1] - 1);
        assert(args[i] < args[i + 1]);
        assert(seg[0] == cb[args[i] - 1]);
    }
}

/// What `cell_options` writes from argument `i` on holds no occurrence of `m`,
/// a text without `,` or `]`, when no argument that it writes mentions `m`
/// unless the argument is dropped metadata.
proof fn lemma_options_avoid(cb: Seq<u8>, args: Seq<usize>, i: int, m: Seq<u8>)
    requires
        i >= 1,
        m.len() > 0,
        avoids(m, COMMA),
        avoids(m, CLOSE_BRACKET),
        boundaries_within(args, cb.len() as int),
        forall|j: int| 1 <= j < args.len() ==> cb[#[trigger] args[j] - 1] == COMMA || cb[args[j] - 1]
            == CLOSE_BRACKET,
        forall|a: Seq<u8>| !is_dropped_option(a) ==> !occurs_in(a, m),
    ensures
        !occurs_in(cell_options(cb, args, i), m),
    decreases args.len() - i,
{
    if i + 1 >= args.len() {
        assert forall|j: int| !matches_at(seq![CLOSE_BRACKET], m, j) by {
            if matches_at(seq![CLOSE_BRACKET], m, j) {
                assert(seq![CLOSE_BRACKET].subrange(j, j + m.len())[0] == m[0]);
            }
        }
    } else {
        lemma_options_avoid(cb, args, i + 1, m);
        lemma_options_first(cb, args, i + 1);
        let rest = cell_options(cb, args, i + 1);
        let arg = cb.subrange(args[i] as int, args[i + 1] - 1);
        if !is_dropped_option(arg) {
            assert(args[i] < args[i + 1]);
            let b = seq![cb[args[i] - 1]];
            let seg = cb.subrange(args[i] - 1, args[i + 1] - 1);
            assert(seg =~= b + arg);
            assert forall|j: int| !matches_at(b, m, j) by {
                if matches_at(b, m, j) {
                    assert(b.subrange(j, j + m.len())[0] == m[0]);
                }
            }
            lemma_join_avoids(b, arg, m);
            lemma_join_avoids(seg, rest, m);
        } else {
            assert(Seq::<u8>::empty() + rest =~= rest);
        }
    }
}

/// The metadata markers hold neither `,` nor `]`.
proof fn lemma_markers_avoid()
    ensures
        avoids(cell_change_times(), COMMA),
        avoids(cell_change_times(), CLOSE_BRACKET),
        avoids(expression_uuid(), COMMA),
        avoids(expression_uuid(), CLOSE_BRACKET),
        cell_change_times().len() > 0,
        expression_uuid().len() > 0,
{
    let a = cell_change_times();
    let b = expression_uuid();
    assert forall|k: int| 0 <= k < a.len() implies #[trigger] a[k] != COMMA && a[k] != CLOSE_BRACKET by {
        assert(a =~= seq![0x43u8, 0x65, 0x6c, 0x6c, 0x43, 0x68, 0x61, 0x6e, 0x67, 0x65, 0x54, 0x69, 0x6d, 0x65, 0x73]);
    }
    assert forall|k: int| 0 <= k < b.len() implies #[trigger] b[k] != COMMA && b[k] != CLOSE_BRACKET by {
    }
}

/// A cell that `parse_cell` keeps is clean.
proof fn lemma_kept_cell_is_clean(t: Seq<u8>)
    ensures
        kept_cell_is_clean(t),
{
    if cell_spec(t).0 == Ok::<bool, ParseError>(true) {
        lemma_function_extent(t);
        let (k, args) = function_extent(t).unwrap();
        let cb = t.take(k as int);
        lemma_scan_boundaries(t, 0, function_start());
        assert forall|j: int| 1 <= j < args.len() implies cb[#[trigger] args[j] - 1] == COMMA || cb[args[j]
            - 1] == CLOSE_BRACKET by {
            assert(cb[args[j] - 1] == t[args[j] - 1]);
        }
        lemma_markers_avoid();
        lemma_options_avoid(cb, args, 2, cell_change_times());
        lemma_options_avoid(cb, args, 2, expression_uuid());
    }
}

proof fn lemma_cell_clean_deep(t: Seq<u8>)
    ensures
        cell_clean_deep(t),
    decreases t.len(), 1nat,
{
    lemma_kept_cell_is_clean(t);
    if !(t.len() < cell_open().len() || t.take(cell_open().len() as int) != cell_open() || t.len()
        > usize::MAX) {
        if let Some((k, args)) = function_extent(t) {
            lemma_function_extent(t);
            let cb = t.take(k as int);
            let n = args.len() - 1;
            if !((n >= 2 && is_dropped_style(cb.subrange(args[1] as int, args[2] as int))) || n == 0) {
                let a0 = args[0] as int;
                let a1 = args[1] as int;
                let window = cb.subrange(a0, group_window_end(a0, a1));
                if let Some(p) = first_match(window, cell_group_data_open()) {
                    lemma_first_match(window, cell_group_data_open());
                    lemma_group_clean_deep(cb.subrange(a0 + p, a1 - 1));
                }
            }
        }
    }
}

proof fn lemma_group_clean_deep(u: Seq<u8>)
    ensures
        group_clean_deep(u),
    decreases u.len(), 4nat,
{
    if !(u.len() < cell_group_data_open().len() || u.take(cell_group_data_open().len() as int)
        != cell_group_data_open()) {
        lemma_first_match(u, seq![OPEN_BRACE]);
        lemma_list_clean_deep(u.skip(group_start_spec(u).1 as int));
    }
}

proof fn lemma_list_clean_deep(s: Seq<u8>)
    ensures
        list_clean_deep(s),
    decreases s.len(), 3nat,
{
    if !(s.len() < 1 || s[0] != OPEN_BRACE || brace_first(s)) {
        if let Some(c) = next_cell(s) {
            lemma_first_match(s, cell_open());
            lemma_loop_clean_deep(s.skip(c));
        }
    }
}

proof fn lemma_loop_clean_deep(s: Seq<u8>)
    ensures
        loop_clean_deep(s),
    decreases s.len(), 2nat,
{
    if !brace_first(s) {
        if let Some(c) = next_cell(s) {
            lemma_first_match(s, cell_open());
            lemma_function_extent_len(s.skip(c));
            let t = s.skip(c);
            lemma_cell_clean_deep(t);
            if cell_spec(t).0 is Ok {
                lemma_loop_clean_deep(s.skip(c + extent_len(t)));
            }
        }
    }
}

/// No cell that the parser keeps, at any depth, carries output or metadata:
/// for any cell text, the cell if kept and every cell kept in a cell group
/// inside it has a style that is not an output style (`"Output"`, `"Print"`,
/// `"PrintTemporary"`, `"Message"`), and writes after its contents and style
/// nothing that mentions `CellChangeTimes` or `ExpressionUUID`.  The same holds
/// of every cell kept in a list of cells.
pub proof fn law_kept_cells_are_clean(t: Seq<u8>)
    ensures
        cell_clean_deep(t),
        list_clean_deep(t),
{
    lemma_cell_clean_deep(t);
    lemma_list_clean_deep(t);
}

} // verus!

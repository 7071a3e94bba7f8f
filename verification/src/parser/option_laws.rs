use vstd::prelude::*;
use crate::error::ParseError;
use crate::parser::patterns::{CLOSE_BRACKET, cell_group_data_open};
use crate::parser::search::{first_match, matches_at, occurs_in, lemma_first_match};
use crate::parser::utilities::{function_extent, boundaries_within, lemma_function_extent};
use crate::parser::cell::{cell_spec, cell_options, is_dropped_option, is_dropped_style, group_window_end};
use crate::parser::patterns::cell_open;
use crate::parser::scan_laws::{
    closed_at, boundaries_before, depth_before, is_boundary, outside_string,
    law_function_extent_is_first_close,
};
use crate::parser::laws::law_plain_cell_is_copied;

verus! {

/// The optional arguments of a cell from argument `i` on, each with the comma
/// before it: for a cell text `cb` with argument boundaries `args`, the piece
/// from just before argument `i` up to the end of argument `i`, and so on.
pub open spec fn option_pieces(cb: Seq<u8>, args: Seq<usize>, i: int) -> Seq<Seq<u8>> {
    if i + 1 >= args.len() {
        Seq::empty()
    } else {
        Seq::new((args.len() - 1 - i) as nat, |j: int| cb.subrange(args[i + j] - 1, args[i + j + 1] - 1))
    }
}

/// An option piece (a comma and the option) that is kept: the option mentions
/// neither `CellChangeTimes` nor `ExpressionUUID`.
pub open spec fn keeps_option(piece: Seq<u8>) -> bool {
    !is_dropped_option(piece.drop_first())
}

proof fn lemma_options_are_filtered(cb: Seq<u8>, args: Seq<usize>, i: int)
    requires
        i >= 1,
        boundaries_within(args, cb.len() as int),
    ensures
        cell_options(cb, args, i) == option_pieces(cb, args, i).filter(|g: Seq<u8>| keeps_option(g)).flatten()
            + seq![CLOSE_BRACKET],
    decreases args.len() - i,
{
    let p = |g: Seq<u8>| keeps_option(g);
    if i + 1 >= args.len() {
        assert(option_pieces(cb, args, i).filter(p) =~= Seq::<Seq<u8>>::empty());
        assert(Seq::<Seq<u8>>::empty().flatten() =~= Seq::<u8>::empty());
        assert(Seq::<u8>::empty() + seq![CLOSE_BRACKET] =~= seq![CLOSE_BRACKET]);
    } else {
        lemma_options_are_filtered(cb, args, i + 1);
        assert(args[i] < args[i + 1]);
        let piece = cb.subrange(args[i] - 1, args[i + 1] - 1);
        let rest = option_pieces(cb, args, i + 1);
        assert(option_pieces(cb, args, i) =~= seq![piece] + rest);
        rest.lemma_filter_prepend(piece, p);
        assert(piece.drop_first() =~= cb.subrange(args[i] as int, args[i + 1] - 1));
        let rf = rest.filter(p);
        if keeps_option(piece) {
            let both = seq![piece] + rf;
            assert(both.first() == piece);
            assert(both.drop_first() =~= rf);
            assert(both.flatten() == piece + rf.flatten());
            assert(piece + (rf.flatten() + seq![CLOSE_BRACKET]) =~= both.flatten() + seq![CLOSE_BRACKET]);
        } else {
            assert(Seq::<Seq<u8>>::empty() + rf =~= rf);
            assert(Seq::<u8>::empty() + cell_options(cb, args, i + 1) =~= cell_options(cb, args, i + 1));
        }
    }
}

/// A kept cell keeps every option but metadata: when `parse_cell` keeps a cell
/// that holds no `CellGroupData[`, what it writes is the cell's text up to the
/// end of its style (or of its contents, if it has no style), then each of its
/// optional arguments in order, with the comma before it, except those that
/// mention `CellChangeTimes` or `ExpressionUUID`, then `]`.
pub proof fn law_kept_cell_keeps_other_options(t: Seq<u8>)
    requires
        cell_spec(t).0 == Ok::<bool, ParseError>(true),
        !occurs_in(t.take(function_extent(t).unwrap().0 as int), cell_group_data_open()),
    ensures
        ({
            let (k, args) = function_extent(t).unwrap();
            let cb = t.take(k as int);
            let head_end = if args.len() == 2 { args[1] - 1 } else { args[2] - 1 };
            cell_spec(t).2 == cb.take(head_end) + option_pieces(cb, args, 2).filter(
                |g: Seq<u8>| keeps_option(g),
            ).flatten() + seq![CLOSE_BRACKET]
        }),
{
    lemma_function_extent(t);
    let (k, args) = function_extent(t).unwrap();
    let cb = t.take(k as int);
    let a0 = args[0] as int;
    let a1 = args[1] as int;
    let window = cb.subrange(a0, group_window_end(a0, a1));
    lemma_first_match(window, cell_group_data_open());
    if let Some(q) = first_match(window, cell_group_data_open()) {
        let m = cell_group_data_open().len() as int;
        assert(cb.subrange(a0 + q, a0 + q + m) =~= window.subrange(q, q + m));
        assert(matches_at(cb, cell_group_data_open(), a0 + q));
    }
    lemma_options_are_filtered(cb, args, 2);
}

/// A plain cell is copied byte for byte whatever its strings hold: a cell text
/// `Cell[contents]` or `Cell[contents, style]` that is first closed, with the
/// brackets and braces inside strings counting for nothing, by the `]` at byte
/// `k`, whose style (if any) is not an output style and which holds no
/// `CellGroupData[`, is kept by `parse_cell`, consumed up to that `]` and
/// written unchanged.
pub proof fn law_plain_cell_with_strings_is_copied(t: Seq<u8>, k: int)
    requires
        t.len() <= usize::MAX,
        t.len() >= cell_open().len(),
        t.take(cell_open().len() as int) == cell_open(),
        1 <= k <= t.len(),
        t[k - 1] == CLOSE_BRACKET,
        closed_at(t, k),
        forall|j: int| 0 <= j < k ==> !closed_at(t, j),
        2 <= boundaries_before(t, k).len() <= 3,
        boundaries_before(t, k).len() == 3 ==> !is_dropped_style(
            t.subrange(boundaries_before(t, k)[1] as int, boundaries_before(t, k)[2] as int),
        ),
        !occurs_in(t.take(k), cell_group_data_open()),
    ensures
        cell_spec(t) == (Ok::<bool, ParseError>(true), k as nat, t.take(k)),
{
    law_function_extent_is_first_close(t);
    let (k2, args) = function_extent(t).unwrap();
    assert(k2 == k) by {
        if k2 < k {
            assert(closed_at(t, k2 as int));
        } else if k2 > k {
            assert(!closed_at(t, k));
        }
    }
    // The closing `]` is the last boundary.
    assert(depth_before(t, k) == 0);
    if !(outside_string(t, k - 1) && depth_before(t, k - 1) == 1) {
        assert(depth_before(t, k - 1) == depth_before(t, k));
        assert(!is_boundary(t, k - 1));
        assert(boundaries_before(t, k - 1) == boundaries_before(t, k));
        assert(closed_at(t, k - 1));
        assert(false);
    }
    assert(is_boundary(t, k - 1));
    assert(args.last() == k);
    lemma_function_extent(t);
    let cb = t.take(k);
    if args.len() == 3 {
        assert(cb.subrange(args[1] as int, args[2] as int) =~= t.subrange(args[1] as int, args[2] as int));
    }
    let a0 = args[0] as int;
    let a1 = args[1] as int;
    let window = cb.subrange(a0, group_window_end(a0, a1));
    lemma_first_match(window, cell_group_data_open());
    if let Some(q) = first_match(window, cell_group_data_open()) {
        let m = cell_group_data_open().len() as int;
        assert(cb.subrange(a0 + q, a0 + q + m) =~= window.subrange(q, q + m));
        assert(matches_at(cb, cell_group_data_open(), a0 + q));
    }
    law_plain_cell_is_copied(t);
}

/// Which cells and options are dropped, by their text: a cell is dropped when
/// its style mentions `"Message"`, `"Output"`, `"PrintTemporary"` or `"Print"`
/// (with the quotes), and an option when it mentions `CellChangeTimes` or
/// `ExpressionUUID`.
pub proof fn law_dropped_styles_and_options(style: Seq<u8>, option: Seq<u8>)
    ensures
        is_dropped_style(style) <==> {
            // "Message"
            ||| occurs_in(style, seq![0x22u8, 0x4d, 0x65, 0x73, 0x73, 0x61, 0x67, 0x65, 0x22])
            // "Output"
            ||| occurs_in(style, seq![0x22u8, 0x4f, 0x75, 0x74, 0x70, 0x75, 0x74, 0x22])
            // "PrintTemporary"
            ||| occurs_in(
                style,
                seq![0x22u8, 0x50, 0x72, 0x69, 0x6e, 0x74, 0x54, 0x65, 0x6d, 0x70, 0x6f, 0x72, 0x61, 0x72, 0x79, 0x22],
            )
            // "Print"
            ||| occurs_in(style, seq![0x22u8, 0x50, 0x72, 0x69, 0x6e, 0x74, 0x22])
        },
        is_dropped_option(option) <==> {
            // CellChangeTimes
            ||| occurs_in(
                option,
                seq![0x43u8, 0x65, 0x6c, 0x6c, 0x43, 0x68, 0x61, 0x6e, 0x67, 0x65, 0x54, 0x69, 0x6d, 0x65, 0x73],
            )
            // ExpressionUUID
            ||| occurs_in(
                option,
                seq![0x45u8, 0x78, 0x70, 0x72, 0x65, 0x73, 0x73, 0x69, 0x6f, 0x6e, 0x55, 0x55, 0x49, 0x44],
            )
        },
{
}

} // verus!

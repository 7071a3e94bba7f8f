use vstd::prelude::*;
use crate::error::ParseError;
use crate::parser::patterns::{OPEN_BRACE, CLOSE_BRACE, cell_open};
use crate::parser::search::{first_match, matches_at, occurs_in, lemma_first_match};
use crate::parser::utilities::{
    FunctionState, function_scan, function_extent, extent_len, read_consume_output_spec,
    function_start,
};
use crate::parser::cell::{cell_spec, cell_loop_spec, cell_list_spec, brace_first, next_cell, next_brace};

verus! {

/// A separator between the cells of a list: it holds neither a `}` nor a
/// `Cell[` (in practice a comma and whitespace).
pub open spec fn is_separator(g: Seq<u8>) -> bool {
    &&& !occurs_in(g, cell_open())
    &&& forall|j: int| 0 <= j < g.len() ==> #[trigger] g[j] != CLOSE_BRACE
}

/// A cell that `parse_cell` keeps and writes unchanged: no output style, no
/// metadata option, nothing to filter inside.
pub open spec fn kept_unchanged(c: Seq<u8>) -> bool {
    cell_spec(c) == (Ok::<bool, ParseError>(true), c.len(), c)
}

/// A cell whose text `parse_cell` parses whole without error, keeping or dropping it.
pub open spec fn whole_cell(c: Seq<u8>) -> bool {
    cell_spec(c).0 is Ok && cell_spec(c).1 == c.len()
}

/// The text of a list of cells from cell `i` on: each cell preceded by its
/// separator, then the separator before the closing `}`, and the `}`.
pub open spec fn cells_from(cells: Seq<Seq<u8>>, gaps: Seq<Seq<u8>>, i: int) -> Seq<u8>
    decreases cells.len() - i,
{
    if i >= cells.len() {
        gaps[cells.len() as int] + seq![CLOSE_BRACE]
    } else {
        gaps[i] + cells[i] + cells_from(cells, gaps, i + 1)
    }
}

/// The list `{g0 c0 g1 c1 ... gn}` of the cells `cells` separated by `gaps`.
pub open spec fn cell_list_text(cells: Seq<Seq<u8>>, gaps: Seq<Seq<u8>>) -> Seq<u8> {
    seq![OPEN_BRACE] + cells_from(cells, gaps, 0)
}

/// What the first occurrence of the single byte `b` in `s` is.
proof fn lemma_first_byte(s: Seq<u8>, b: u8)
    ensures
        match first_match(s, seq![b]) {
            Some(p) => 0 <= p < s.len() && s[p] == b && forall|j: int| 0 <= j < p ==> #[trigger] s[j] != b,
            None => forall|j: int| 0 <= j < s.len() ==> #[trigger] s[j] != b,
        },
{
    lemma_first_match(s, seq![b]);
    match first_match(s, seq![b]) {
        Some(p) => {
            assert(s.subrange(p, p + 1)[0] == s[p]);
            assert forall|j: int| 0 <= j < p implies #[trigger] s[j] != b by {
                if s[j] == b {
                    assert(s.subrange(j, j + 1) =~= seq![b]);
                    assert(matches_at(s, seq![b], j));
                }
            }
        },
        None => {
            assert forall|j: int| 0 <= j < s.len() implies #[trigger] s[j] != b by {
                if s[j] == b {
                    assert(s.subrange(j, j + 1) =~= seq![b]);
                    assert(matches_at(s, seq![b], j));
                }
            }
        },
    }
}

/// A cell can only start at a `C`.
proof fn lemma_cell_starts_with_c(s: Seq<u8>, j: int)
    requires
        matches_at(s, cell_open(), j),
    ensures
        s[j] == cell_open()[0],
{
    assert(s.subrange(j, j + cell_open().len())[0] == s[j]);
}

/// Scanning a function only reads up to its end: text after it changes nothing.
proof fn lemma_function_scan_prefix(s: Seq<u8>, r: Seq<u8>, i: nat, st: FunctionState)
    requires
        function_scan(s, i, st) is Some,
    ensures
        function_scan(s + r, i, st) == function_scan(s, i, st),
    decreases s.len() - i,
{
    let st2 = crate::parser::utilities::function_step(st, s[i as int], (i + 1) as usize);
    if !crate::parser::utilities::function_done(st) && i < s.len() {
        assert((s + r)[i as int] == s[i as int]);
        lemma_function_scan_prefix(s, r, i + 1, st2);
    }
}

/// A separator followed by other text: neither a cell nor a `}`
/// starts within the separator.
proof fn lemma_after_separator(g: Seq<u8>, u: Seq<u8>)
    requires
        is_separator(g),
        u.len() > 0,
        u[0] == cell_open()[0] || u[0] == CLOSE_BRACE,
    ensures
        ({
            let s = g + u;
            &&& u.len() >= cell_open().len() && u.take(cell_open().len() as int) == cell_open()
                ==> next_cell(s) == Some(g.len() as int) && !brace_first(s)
            &&& u[0] == CLOSE_BRACE ==> next_brace(s) == Some(g.len() as int) && brace_first(s)
        }),
{
    let s = g + u;
    let n = g.len() as int;
    let m = cell_open().len() as int;
    lemma_first_match(s, cell_open());
    lemma_first_byte(s, CLOSE_BRACE);
    assert(s[n] == u[0]);
    if let Some(c) = next_cell(s) {
        lemma_cell_starts_with_c(s, c);
        if c < n {
            if c + m <= n {
                assert(g.subrange(c, c + m) =~= s.subrange(c, c + m));
                assert(matches_at(g, cell_open(), c));
            } else {
                // A `Cell[` that began in the separator would continue into `u`
                // with one of `ell[`, but `u` starts with `C` or `}`.
                assert(s.subrange(c, c + m)[n - c] == s[n]);
                let k = n - c;
                assert(1 <= k < m);
                assert(cell_open()[1] == 0x65 && cell_open()[2] == 0x6c && cell_open()[3] == 0x6c
                    && cell_open()[4] == 0x5b);
                assert(s[n] == cell_open()[k]);
            }
        }
    }
    if let Some(b) = next_brace(s) {
        if b < n {
            assert(s[b] == g[b]);
        }
    }
    if u.len() >= m && u.take(m) == cell_open() {
        assert(s.subrange(n, n + m) =~= u.take(m));
        assert(matches_at(s, cell_open(), n));
    }
}

/// The cells from `i` on, with `rest` after the list, are copied unchanged by
/// the cell-list loop.
proof fn lemma_kept_loop(
    cells: Seq<Seq<u8>>,
    gaps: Seq<Seq<u8>>,
    i: int,
    rest: Seq<u8>,
    start: bool,
    st: Seq<u8>,
)
    requires
        gaps.len() == cells.len() + 1,
        forall|j: int| 0 <= j < gaps.len() ==> is_separator(#[trigger] gaps[j]),
        forall|j: int| 0 <= j < cells.len() ==> kept_unchanged(#[trigger] cells[j]),
        0 <= i <= cells.len(),
        cells_from(cells, gaps, i).len() + rest.len() <= usize::MAX,
        start ==> gaps[i].len() == 0,
    ensures
        ({
            let text = cells_from(cells, gaps, i);
            cell_loop_spec::<Vec<u8>>(text + rest, start, st) == (None::<ParseError>, text.len(), st + text)
        }),
    decreases cells.len() - i,
{
    let text = cells_from(cells, gaps, i);
    let s = text + rest;
    let g = gaps[i];
    if i == cells.len() {
        let u = seq![CLOSE_BRACE] + rest;
        assert(s =~= g + u);
        lemma_after_separator(g, u);
        assert(s.take(g.len() + 1int) =~= text);
    } else {
        let c = cells[i];
        let after = cells_from(cells, gaps, i + 1) + rest;
        let u = c + after;
        assert(s =~= g + u);
        lemma_whole_cell_prefix(c, after);
        lemma_after_separator(g, u);
        let p = g.len() as int;
        assert(s.skip(p) =~= u);
        assert(s.take(p) =~= g);
        let pre = if start { Seq::<u8>::empty() } else { s.take(p) };
        assert(pre =~= g);
        let st1 = st + (pre + c);
        assert(s.skip(p + c.len()) =~= after);
        lemma_kept_loop(cells, gaps, i + 1, rest, false, st1);
        assert(st1 + cells_from(cells, gaps, i + 1) =~= st + text);
    }
}

/// `cells_from` reads only the separators from `i` on.
proof fn lemma_cells_from_gaps(cells: Seq<Seq<u8>>, g1: Seq<Seq<u8>>, g2: Seq<Seq<u8>>, i: int)
    requires
        g1.len() == cells.len() + 1,
        g2.len() == cells.len() + 1,
        0 <= i <= cells.len(),
        forall|j: int| i <= j < g1.len() ==> g1[j] == g2[j],
    ensures
        cells_from(cells, g1, i) == cells_from(cells, g2, i),
    decreases cells.len() - i,
{
    if i < cells.len() {
        lemma_cells_from_gaps(cells, g1, g2, i + 1);
    } else {
        assert(g1[cells.len() as int] == g2[cells.len() as int]);
    }
}

/// The `{` and first separator of a list, read as one separator-like text.
proof fn lemma_opening_is_separator(g: Seq<u8>)
    requires
        is_separator(g),
    ensures
        is_separator(seq![OPEN_BRACE] + g),
{
    let og = seq![OPEN_BRACE] + g;
    let m = cell_open().len() as int;
    assert forall|j: int| 0 <= j < og.len() implies #[trigger] og[j] != CLOSE_BRACE by {
        if j > 0 {
            assert(og[j] == g[j - 1]);
        }
    }
    assert forall|j: int| !matches_at(og, cell_open(), j) by {
        if matches_at(og, cell_open(), j) {
            if j == 0 {
                assert(og.subrange(0, m)[0] == og[0]);
            } else {
                assert(g.subrange(j - 1, j - 1 + m) =~= og.subrange(j, j + m));
                assert(matches_at(g, cell_open(), j - 1));
            }
        }
    }
}

/// The list of no cells `{g}` is copied as it stands.
proof fn lemma_empty_list_copied(cells: Seq<Seq<u8>>, gaps: Seq<Seq<u8>>, rest: Seq<u8>, out: Seq<u8>)
    requires
        cells.len() == 0,
        gaps.len() == 1,
        is_separator(gaps[0]),
    ensures
        ({
            let list = cell_list_text(cells, gaps);
            cell_list_spec::<Vec<u8>>(list + rest, out) == (None::<ParseError>, list.len(), out + list)
        }),
{
    let list = cell_list_text(cells, gaps);
    let s = list + rest;
    let g = gaps[0];
    let ob = seq![OPEN_BRACE];
    let u = seq![CLOSE_BRACE] + rest;
    assert(s =~= (ob + g) + u);
    assert(s[0] == OPEN_BRACE);
    lemma_opening_is_separator(g);
    lemma_after_separator(ob + g, u);
    assert(s.take(g.len() + 2int) =~= list);
}

/// A list of at least one cell, all kept unchanged, is copied as it stands.
proof fn lemma_list_copied(cells: Seq<Seq<u8>>, gaps: Seq<Seq<u8>>, rest: Seq<u8>, out: Seq<u8>)
    requires
        cells.len() > 0,
        gaps.len() == cells.len() + 1,
        forall|j: int| 0 <= j < gaps.len() ==> is_separator(#[trigger] gaps[j]),
        forall|j: int| 0 <= j < cells.len() ==> kept_unchanged(#[trigger] cells[j]),
        cell_list_text(cells, gaps).len() + rest.len() <= usize::MAX,
    ensures
        ({
            let list = cell_list_text(cells, gaps);
            cell_list_spec::<Vec<u8>>(list + rest, out) == (None::<ParseError>, list.len(), out + list)
        }),
{
    let list = cell_list_text(cells, gaps);
    let s = list + rest;
    let g = gaps[0];
    let ob = seq![OPEN_BRACE];
    let c = cells[0];
    let after = cells_from(cells, gaps, 1) + rest;
    let u = c + after;
    assert(s =~= (ob + g) + u);
    assert(s[0] == OPEN_BRACE);
    lemma_whole_cell_prefix(c, after);
    lemma_opening_is_separator(g);
    lemma_after_separator(ob + g, u);
    let p = g.len() + 1int;
    assert(s.take(p) =~= ob + g);
    assert(s.skip(p) =~= u);
    let out1 = out + (ob + g);
    let gaps2 = gaps.update(0, Seq::<u8>::empty());
    lemma_cells_from_gaps(cells, gaps, gaps2, 1);
    assert forall|j: int| 0 <= j < gaps2.len() implies is_separator(#[trigger] gaps2[j]) by {
        if j > 0 {
            assert(gaps2[j] == gaps[j]);
        }
    }
    let body2 = cells_from(cells, gaps2, 0);
    assert(body2 =~= c + cells_from(cells, gaps, 1));
    assert(u =~= body2 + rest);
    lemma_kept_loop(cells, gaps2, 0, rest, true, out1);
    assert(out1 + body2 =~= out + list);
}

/// A list of cells that are all kept unchanged is copied byte for byte: a list
/// `{g0 c0 g1 c1 ... gn}` whose cells `parse_cell` writes unchanged and whose
/// separators hold no `}` and no `Cell[` is parsed without error, consumed up to
/// and including its `}`, and written to the output exactly as it stands.
pub proof fn law_kept_cell_list_is_copied(
    cells: Seq<Seq<u8>>,
    gaps: Seq<Seq<u8>>,
    rest: Seq<u8>,
    out: Seq<u8>,
)
    requires
        gaps.len() == cells.len() + 1,
        forall|j: int| 0 <= j < gaps.len() ==> is_separator(#[trigger] gaps[j]),
        forall|j: int| 0 <= j < cells.len() ==> kept_unchanged(#[trigger] cells[j]),
        cell_list_text(cells, gaps).len() + rest.len() <= usize::MAX,
    ensures
        ({
            let list = cell_list_text(cells, gaps);
            cell_list_spec::<Vec<u8>>(list + rest, out) == (None::<ParseError>, list.len(), out + list)
        }),
{
    if cells.len() == 0 {
        lemma_empty_list_copied(cells, gaps, rest, out);
    } else {
        lemma_list_copied(cells, gaps, rest, out);
    }
}

/// What the cells of a list from cell `i` on become: each kept cell is written
/// as `parse_cell` writes it, preceded by its separator unless no cell has been
/// kept yet (`first`); a dropped cell vanishes with its separator; the list ends
/// with its last separator and `}`.
pub open spec fn filtered_from(cells: Seq<Seq<u8>>, gaps: Seq<Seq<u8>>, i: int, first: bool) -> Seq<u8>
    decreases cells.len() - i,
{
    if i >= cells.len() {
        gaps[cells.len() as int] + seq![CLOSE_BRACE]
    } else if cell_spec(cells[i]).0 == Ok::<bool, ParseError>(true) {
        (if first { Seq::empty() } else { gaps[i] }) + cell_spec(cells[i]).2 + filtered_from(
            cells,
            gaps,
            i + 1,
            false,
        )
    } else {
        filtered_from(cells, gaps, i + 1, first)
    }
}

/// What the list `{g0 c0 g1 c1 ... gn}` becomes: `{`, the separator before the
/// first cell, then the cells as `filtered_from` says.
pub open spec fn filtered_list(cells: Seq<Seq<u8>>, gaps: Seq<Seq<u8>>) -> Seq<u8> {
    seq![OPEN_BRACE] + gaps[0] + filtered_from(cells, gaps.update(0, Seq::empty()), 0, true)
}

/// A whole cell is parsed the same whatever follows it.
proof fn lemma_whole_cell_prefix(c: Seq<u8>, r: Seq<u8>)
    requires
        whole_cell(c),
        c.len() + r.len() <= usize::MAX,
    ensures
        cell_spec(c + r) == cell_spec(c),
        extent_len(c + r) == c.len(),
        (c + r).take(cell_open().len() as int) == cell_open(),
{
    let t = c + r;
    assert(c.len() >= cell_open().len());
    assert(t.take(cell_open().len() as int) =~= c.take(cell_open().len() as int));
    lemma_function_scan_prefix(c, r, 0, function_start());
    assert(function_extent(t) == function_extent(c));
    let k = function_extent(c).unwrap().0;
    assert(k == c.len());
    assert(t.take(k as int) =~= c.take(k as int));
}

/// The cells from `i` on, with `rest` after the list, are written by the
/// cell-list loop as `filtered_from` says.
proof fn lemma_filter_loop(
    cells: Seq<Seq<u8>>,
    gaps: Seq<Seq<u8>>,
    i: int,
    rest: Seq<u8>,
    start: bool,
    st: Seq<u8>,
)
    requires
        gaps.len() == cells.len() + 1,
        forall|j: int| 0 <= j < gaps.len() ==> is_separator(#[trigger] gaps[j]),
        forall|j: int| 0 <= j < cells.len() ==> whole_cell(#[trigger] cells[j]),
        0 <= i <= cells.len(),
        cells_from(cells, gaps, i).len() + rest.len() <= usize::MAX,
    ensures
        ({
            let text = cells_from(cells, gaps, i);
            cell_loop_spec::<Vec<u8>>(text + rest, start, st) == (
                None::<ParseError>,
                text.len(),
                st + filtered_from(cells, gaps, i, start),
            )
        }),
    decreases cells.len() - i,
{
    let text = cells_from(cells, gaps, i);
    let s = text + rest;
    let g = gaps[i];
    if i == cells.len() {
        let u = seq![CLOSE_BRACE] + rest;
        assert(s =~= g + u);
        lemma_after_separator(g, u);
        assert(s.take(g.len() + 1int) =~= text);
    } else {
        let c = cells[i];
        let after = cells_from(cells, gaps, i + 1) + rest;
        let u = c + after;
        assert(s =~= g + u);
        lemma_whole_cell_prefix(c, after);
        lemma_after_separator(g, u);
        let p = g.len() as int;
        assert(s.skip(p) =~= u);
        assert(s.take(p) =~= g);
        assert(s.skip(p + c.len()) =~= after);
        let w = cell_spec(c).2;
        if cell_spec(c).0 == Ok::<bool, ParseError>(true) {
            let pre = if start { Seq::<u8>::empty() } else { s.take(p) };
            let st1 = st + (pre + w);
            lemma_filter_loop(cells, gaps, i + 1, rest, false, st1);
            assert(st1 + filtered_from(cells, gaps, i + 1, false) =~= st + filtered_from(
                cells,
                gaps,
                i,
                start,
            ));
        } else {
            lemma_filter_loop(cells, gaps, i + 1, rest, start, st);
        }
    }
}

/// A list of cells is written as its kept cells: parsing a list
/// `{g0 c0 g1 c1 ... gn}` of whole cells whose separators hold no `}` and no
/// `Cell[` succeeds, consumes the list up to and including its `}`, and writes `{`,
/// the first separator, each kept cell as `parse_cell` writes it (preceded by
/// its separator unless it is the first kept one), the last separator and `}`.
/// An output cell leaves nothing behind, not even its separator.
pub proof fn law_cell_list_writes_kept_cells(
    cells: Seq<Seq<u8>>,
    gaps: Seq<Seq<u8>>,
    rest: Seq<u8>,
    out: Seq<u8>,
)
    requires
        gaps.len() == cells.len() + 1,
        forall|j: int| 0 <= j < gaps.len() ==> is_separator(#[trigger] gaps[j]),
        forall|j: int| 0 <= j < cells.len() ==> whole_cell(#[trigger] cells[j]),
        cell_list_text(cells, gaps).len() + rest.len() <= usize::MAX,
    ensures
        ({
            let list = cell_list_text(cells, gaps);
            cell_list_spec::<Vec<u8>>(list + rest, out) == (
                None::<ParseError>,
                list.len(),
                out + filtered_list(cells, gaps),
            )
        }),
{
    let list = cell_list_text(cells, gaps);
    let s = list + rest;
    let g = gaps[0];
    let ob = seq![OPEN_BRACE];
    let gaps2 = gaps.update(0, Seq::<u8>::empty());
    assert forall|j: int| 0 <= j < gaps2.len() implies is_separator(#[trigger] gaps2[j]) by {
        if j > 0 {
            assert(gaps2[j] == gaps[j]);
        }
    }
    assert(s[0] == OPEN_BRACE);
    lemma_opening_is_separator(g);
    if cells.len() == 0 {
        let u = seq![CLOSE_BRACE] + rest;
        assert(s =~= (ob + g) + u);
        lemma_after_separator(ob + g, u);
        assert(s.take(g.len() + 2int) =~= list);
        assert(gaps2[0] =~= Seq::<u8>::empty());
        assert(filtered_list(cells, gaps) =~= list);
    } else {
        let c = cells[0];
        let after = cells_from(cells, gaps, 1) + rest;
        let u = c + after;
        assert(s =~= (ob + g) + u);
        lemma_whole_cell_prefix(c, after);
        lemma_after_separator(ob + g, u);
        let p = g.len() + 1int;
        assert(s.take(p) =~= ob + g);
        assert(s.skip(p) =~= u);
        let out1 = out + (ob + g);
        lemma_cells_from_gaps(cells, gaps, gaps2, 1);
        let body2 = cells_from(cells, gaps2, 0);
        assert(body2 =~= c + cells_from(cells, gaps, 1));
        assert(u =~= body2 + rest);
        lemma_filter_loop(cells, gaps2, 0, rest, true, out1);
        assert(out1 + filtered_from(cells, gaps2, 0, true) =~= out + filtered_list(cells, gaps));
    }
}

} // verus!

use vstd::prelude::*;
use crate::error::ParseError;
use crate::sink::write_chunks;
use crate::parser::patterns::{NEWLINE, notebook_close};
use crate::parser::search::lemma_first_match;
use crate::parser::utilities::{read_consume_output_spec, extent_len, lemma_function_extent_len};
use crate::parser::cell::{
    cell_spec, cell_loop_spec, cell_list_spec, brace_first, next_cell, next_brace,
    lemma_cell_spec_consumed, lemma_cell_loop_vec, lemma_cell_list_vec,
};
use crate::parser::notebook::{notebook_start_spec, notebook_end_spec, notebook_spec};
use crate::parser::header::{content_type_spec, beginning_notebook_spec, header_spec};
use crate::parser::whitespace::{CleanerState, WhitespaceCleaner, clean_write};
use crate::parser::laws::{
    law_cleaner_write_in_pieces, law_cleaner_lines_have_no_trailing_white_space,
    lines_have_no_trailing_white_space, cleaner_state_clean, law_notebook_ends_with_end_marker,
};
use crate::parser::cleaner_laws::{
    cleaned_lines, last_line, lemma_clean_write_lines, lemma_lines_concat, lemma_first_newline_after,
};
use crate::parser::laws::has_no_newline;
use crate::parser::whitespace::{trim_trailing_white_space, white_space_suffix_len};
use crate::parser::input_spec;
use crate::parser::clean_laws::{list_clean_deep, law_kept_cells_are_clean};
use crate::parser::search::first_match;
use crate::parser::patterns::notebook_open;

verus! {

/// Writing `x` to a whitespace cleaner in state `st` succeeds and leaves it in state `st2`.
pub open spec fn cleans(st: CleanerState, x: Seq<u8>, st2: CleanerState) -> bool {
    clean_write(st, x) == (st2, None::<ParseError>)
}

/// A step of a parser run into a whitespace cleaner in state `st` (`c`) and into
/// an empty vector (`v`): where the first succeeds, so does the second, it
/// consumes as much, and the cleaner ends as if the vector's bytes had been
/// written to it at once.
pub open spec fn runs_alike(
    st: CleanerState,
    c: (Option<ParseError>, nat, CleanerState),
    v: (Option<ParseError>, nat, Seq<u8>),
) -> bool {
    c.0 is None ==> v.0 is None && v.1 == c.1 && cleans(st, v.2, c.2)
}

proof fn lemma_cleans_empty(st: CleanerState)
    ensures
        cleans(st, Seq::empty(), st),
{
}

proof fn lemma_cleans_join(st: CleanerState, a: Seq<u8>, st1: CleanerState, b: Seq<u8>, st2: CleanerState)
    requires
        cleans(st, a, st1),
        cleans(st1, b, st2),
    ensures
        cleans(st, a + b, st2),
{
    law_cleaner_write_in_pieces(st, a, b);
}

proof fn lemma_read_consume_alike(s: Seq<u8>, st: CleanerState, len: nat)
    ensures
        runs_alike(
            st,
            read_consume_output_spec::<WhitespaceCleaner>(s, st, len),
            read_consume_output_spec::<Vec<u8>>(s, Seq::empty(), len),
        ),
{
    assert(Seq::<u8>::empty() + s.take(len as int) =~= s.take(len as int));
}

proof fn lemma_chunks_alike(st: CleanerState, chunks: Seq<Seq<u8>>)
    requires
        write_chunks::<WhitespaceCleaner>(st, chunks).1 is None,
    ensures
        cleans(st, chunks.flatten(), write_chunks::<WhitespaceCleaner>(st, chunks).0),
    decreases chunks.len(),
{
    if chunks.len() == 0 {
        lemma_cleans_empty(st);
    } else {
        let st1 = clean_write(st, chunks[0]).0;
        lemma_chunks_alike(st1, chunks.drop_first());
        lemma_cleans_join(
            st,
            chunks[0],
            st1,
            chunks.drop_first().flatten(),
            write_chunks::<WhitespaceCleaner>(st, chunks).0,
        );
    }
}

proof fn lemma_chunks_vec(o: Seq<u8>, chunks: Seq<Seq<u8>>)
    ensures
        write_chunks::<Vec<u8>>(o, chunks) == (o + chunks.flatten(), None::<ParseError>),
    decreases chunks.len(),
{
    if chunks.len() == 0 {
        assert(o + chunks.flatten() =~= o);
    } else {
        lemma_chunks_vec(o + chunks[0], chunks.drop_first());
        assert(o + chunks[0] + chunks.drop_first().flatten() =~= o + chunks.flatten());
    }
}

proof fn lemma_cell_loop_alike(s: Seq<u8>, start: bool, st: CleanerState)
    ensures
        runs_alike(
            st,
            cell_loop_spec::<WhitespaceCleaner>(s, start, st),
            cell_loop_spec::<Vec<u8>>(s, start, Seq::empty()),
        ),
    decreases s.len(),
{
    let e = Seq::<u8>::empty();
    if brace_first(s) {
        lemma_read_consume_alike(s, st, (next_brace(s).unwrap() + 1) as nat);
    } else if let Some(c) = next_cell(s) {
        lemma_first_match(s, crate::parser::patterns::cell_open());
        lemma_function_extent_len(s.skip(c));
        let t = s.skip(c);
        lemma_cell_spec_consumed(t);
        let pre = if start { Seq::empty() } else { s.take(c) };
        let (r, n, w) = cell_spec(t);
        if let Ok(keep) = r {
            let k = extent_len(t);
            let s2 = s.skip(c + k);
            if keep {
                let st1 = clean_write(st, pre + w).0;
                lemma_cell_loop_alike(s2, false, st1);
                lemma_cell_loop_vec(s2, false, e + (pre + w));
                let cw = cell_loop_spec::<WhitespaceCleaner>(s2, false, st1);
                let v2 = cell_loop_spec::<Vec<u8>>(s2, false, e);
                if cell_loop_spec::<WhitespaceCleaner>(s, start, st).0 is None {
                    assert(e + (pre + w) + v2.2 =~= (pre + w) + v2.2);
                    lemma_cleans_join(st, pre + w, st1, v2.2, cw.2);
                }
            } else {
                lemma_cell_loop_alike(s2, start, st);
            }
        }
    }
}

proof fn lemma_cell_list_alike(s: Seq<u8>, st: CleanerState)
    ensures
        runs_alike(
            st,
            cell_list_spec::<WhitespaceCleaner>(s, st),
            cell_list_spec::<Vec<u8>>(s, Seq::empty()),
        ),
{
    let e = Seq::<u8>::empty();
    if s.len() < 1 || s[0] != crate::parser::patterns::OPEN_BRACE {
    } else if brace_first(s) {
        lemma_read_consume_alike(s, st, (next_brace(s).unwrap() + 1) as nat);
    } else if let Some(c) = next_cell(s) {
        lemma_first_match(s, crate::parser::patterns::cell_open());
        lemma_read_consume_alike(s, st, c as nat);
        let st1 = read_consume_output_spec::<WhitespaceCleaner>(s, st, c as nat).2;
        lemma_cell_loop_alike(s.skip(c), true, st1);
        lemma_cell_loop_vec(s.skip(c), true, e + s.take(c));
        if cell_list_spec::<WhitespaceCleaner>(s, st).0 is None {
            let v2 = cell_loop_spec::<Vec<u8>>(s.skip(c), true, e);
            let cw = cell_loop_spec::<WhitespaceCleaner>(s.skip(c), true, st1);
            assert(e + s.take(c) =~= s.take(c));
            lemma_cleans_join(st, s.take(c), st1, v2.2, cw.2);
        }
    }
}

proof fn lemma_notebook_alike(s: Seq<u8>, st: CleanerState)
    ensures
        runs_alike(st, notebook_spec::<WhitespaceCleaner>(s, st), notebook_spec::<Vec<u8>>(s, Seq::empty())),
{
    let e = Seq::<u8>::empty();
    if notebook_spec::<WhitespaceCleaner>(s, st).0 is None {
        let p = crate::parser::search::first_match(s, crate::parser::patterns::notebook_open()).unwrap();
        let s1 = s.skip(p);
        let (e1, c1, st1) = notebook_start_spec::<WhitespaceCleaner>(s1, st);
        let v1 = notebook_start_spec::<Vec<u8>>(s1, e);
        match crate::parser::search::first_match(s1, seq![crate::parser::patterns::OPEN_BRACE]) {
            Some(q) => lemma_read_consume_alike(s1, st, q as nat),
            None => {},
        }
        let s2 = s1.skip(c1 as int);
        let (e2, c2, st2) = cell_list_spec::<WhitespaceCleaner>(s2, st1);
        lemma_cell_list_alike(s2, st1);
        let v2 = cell_list_spec::<Vec<u8>>(s2, e);
        lemma_cell_list_vec(s2, v1.2);
        let s3 = s2.skip(c2 as int);
        let (e3, c3, st3) = notebook_end_spec::<WhitespaceCleaner>(s3, st2);
        lemma_cleans_join(st, v1.2, st1, v2.2, st2);
        let close = notebook_close();
        lemma_cleans_join(st, v1.2 + v2.2, st2, close, st3);
        assert(v1.2 + v2.2 + close =~= notebook_spec::<Vec<u8>>(s, e).2);
    }
}

proof fn lemma_header_alike(s: Seq<u8>, st: CleanerState)
    ensures
        runs_alike(st, header_spec::<WhitespaceCleaner>(s, st), header_spec::<Vec<u8>>(s, Seq::empty())),
{
    let e = Seq::<u8>::empty();
    if header_spec::<WhitespaceCleaner>(s, st).0 is None {
        let (e1, c1, st1) = content_type_spec::<WhitespaceCleaner>(s, st);
        let p = crate::parser::search::first_match(s, crate::parser::patterns::content_type_marker()).unwrap();
        let t = s.skip(p);
        let n = crate::parser::header::until_len(t, crate::parser::patterns::CLOSE_PAREN);
        let ch1 = seq![t.take(n as int), seq![NEWLINE]];
        lemma_chunks_alike(st, ch1);
        lemma_chunks_vec(e, ch1);
        let s2 = s.skip(c1 as int);
        let p2 = crate::parser::search::first_match(s2, crate::parser::patterns::beginning_marker()).unwrap();
        let t2 = s2.skip(p2);
        let n2 = crate::parser::header::until_len(t2, crate::parser::patterns::CLOSE_PAREN);
        let ch2 = seq![seq![NEWLINE], t2.take(n2 as int), seq![NEWLINE]];
        lemma_chunks_alike(st1, ch2);
        lemma_chunks_vec(e + ch1.flatten(), ch2);
        let (e2, c2, st2) = beginning_notebook_spec::<WhitespaceCleaner>(s2, st1);
        lemma_cleans_join(st, ch1.flatten(), st1, ch2.flatten(), st2);
        assert(e + ch1.flatten() + ch2.flatten() =~= ch1.flatten() + ch2.flatten());
    }
}

/// The last line that a filtered notebook ends with: `(* End of Notebook Content *)`
/// and a line feed.
pub open spec fn end_line() -> Seq<u8> {
    notebook_close().skip(2)
}

/// The end line has its only line feed at its end.
proof fn lemma_end_line_shape()
    ensures
        end_line().len() == 30,
        end_line()[29] == NEWLINE,
        has_no_newline(end_line().take(29)),
        white_space_suffix_len(end_line().take(29)) == 0,
{
    let x = end_line().take(29);
    assert(x =~= seq![
        0x28u8, 0x2a, 0x20, 0x45, 0x6e, 0x64, 0x20, 0x6f, 0x66, 0x20, 0x4e, 0x6f, 0x74, 0x65,
        0x62, 0x6f, 0x6f, 0x6b, 0x20, 0x43, 0x6f, 0x6e, 0x74, 0x65, 0x6e, 0x74, 0x20, 0x2a, 0x29,
    ]);
}

/// Text that ends with the notebook's closing text is cleaned into lines that
/// end with the end line, and leaves nothing pending.
proof fn lemma_cleaned_end(y: Seq<u8>)
    ensures
        ({
            let w = cleaned_lines(y + notebook_close());
            &&& w.len() >= end_line().len()
            &&& w.subrange(w.len() - end_line().len(), w.len() as int) == end_line()
            &&& last_line(y + notebook_close()) == Seq::<u8>::empty()
        }),
{
    let close = notebook_close();
    let e = end_line();
    lemma_end_line_shape();
    lemma_lines_concat(y, close);
    let l = last_line(y);
    crate::parser::cleaner_laws::lemma_last_line_has_no_newline(y);
    // The first line feed of `l + close` follows its `]`.
    let head = l + seq![close[0]];
    assert(has_no_newline(head)) by {
        assert forall|j: int| 0 <= j < head.len() implies #[trigger] head[j] != NEWLINE by {
            if j < l.len() {
                assert(head[j] == l[j]);
            }
        }
    }
    let tail = close.skip(1);
    assert(l + close =~= head + tail);
    lemma_first_newline_after(head, tail);
    crate::parser::laws::lemma_first_newline(tail);
    assert(tail[0] == NEWLINE);
    assert(crate::parser::search::first_match(tail, seq![NEWLINE]) == Some(0int)) by {
        lemma_first_match(tail, seq![NEWLINE]);
        assert(tail.subrange(0, 1) =~= seq![NEWLINE]);
    }
    let lc = l + close;
    let n1 = head.len() as int;
    assert(lc.skip(n1 + 1) =~= e);
    // The end line: its one line feed is its last byte.
    let pre = e.take(29);
    assert(e =~= pre + seq![NEWLINE]);
    lemma_first_newline_after(pre, seq![NEWLINE]);
    assert(crate::parser::search::first_match(seq![NEWLINE], seq![NEWLINE]) == Some(0int)) by {
        lemma_first_match(seq![NEWLINE], seq![NEWLINE]);
        assert(seq![NEWLINE].subrange(0, 1) =~= seq![NEWLINE]);
    }
    assert(e.take(30) =~= e);
    assert(e.skip(30) =~= Seq::<u8>::empty());
    lemma_first_match(Seq::<u8>::empty(), seq![NEWLINE]);
    assert(cleaned_lines(Seq::<u8>::empty()) == Seq::<u8>::empty());
    assert(last_line(Seq::<u8>::empty()) == Seq::<u8>::empty());
    assert(white_space_suffix_len(e) == 1);
    assert(e.take(e.len() - 1) =~= pre);
    assert(trim_trailing_white_space(pre) == pre);
    assert(trim_trailing_white_space(e) == pre);
    assert(cleaned_lines(e) =~= e);
    assert(last_line(e) == Seq::<u8>::empty());
    assert(last_line(lc) == last_line(e));
    let first = trim_trailing_white_space(lc.take(n1 + 1)) + seq![NEWLINE];
    assert(cleaned_lines(lc) == first + e);
    let w = cleaned_lines(y + close);
    assert(w =~= cleaned_lines(y) + first + e);
    assert(w.subrange(w.len() - e.len(), w.len() as int) =~= e);
}

/// Where the notebook parser reads the notebook's list of cells in `s`: after
/// the first `Notebook[` and the text up to its `{`.
pub open spec fn notebook_list_text(s: Seq<u8>) -> Seq<u8> {
    match first_match(s, notebook_open()) {
        None => Seq::empty(),
        Some(p) => {
            let s1 = s.skip(p);
            s1.skip(notebook_start_spec::<Vec<u8>>(s1, Seq::empty()).1 as int)
        },
    }
}

/// What `parse_input` writes for a notebook it parses without error: the text
/// that the header and notebook parsers write into a plain vector, cut into its
/// lines, each line without its trailing whitespace and ended by one line feed.
/// Nothing is left out at the end: the output ends with the line
/// `(* End of Notebook Content *)`, and no line of it ends with whitespace.
/// No cell kept in the notebook, at any depth, has an output style or writes a
/// `CellChangeTimes` or `ExpressionUUID` option.
pub proof fn law_parse_input_output(s: Seq<u8>)
    requires
        input_spec(s).0 is None,
    ensures
        ({
            let (_, c1, h) = header_spec::<Vec<u8>>(s, Seq::empty());
            let nb = notebook_spec::<Vec<u8>>(s.skip(c1 as int), Seq::empty()).2;
            let w = input_spec(s).2;
            &&& header_spec::<Vec<u8>>(s, Seq::empty()).0 is None
            &&& notebook_spec::<Vec<u8>>(s.skip(c1 as int), Seq::empty()).0 is None
            &&& w == cleaned_lines(h + nb)
            &&& last_line(h + nb) == Seq::<u8>::empty()
            &&& lines_have_no_trailing_white_space(w)
            &&& w.len() >= end_line().len()
            &&& w.subrange(w.len() - end_line().len(), w.len() as int) == end_line()
            &&& list_clean_deep(notebook_list_text(s.skip(c1 as int)))
        }),
{
    let e = Seq::<u8>::empty();
    let c1v = header_spec::<Vec<u8>>(s, e).1;
    assert(list_clean_deep(notebook_list_text(s.skip(c1v as int)))) by {
        law_kept_cells_are_clean(notebook_list_text(s.skip(c1v as int)));
    }
    let st0: CleanerState = (e, e);
    let (e1, c1, st1) = header_spec::<WhitespaceCleaner>(s, st0);
    let (e2, c2, st2) = notebook_spec::<WhitespaceCleaner>(s.skip(c1 as int), st1);
    lemma_header_alike(s, st0);
    let h = header_spec::<Vec<u8>>(s, e).2;
    lemma_notebook_alike(s.skip(c1 as int), st1);
    let nb = notebook_spec::<Vec<u8>>(s.skip(c1 as int), e).2;
    lemma_cleans_join(st0, h, st1, nb, st2);
    assert(has_no_newline(e));
    lemma_clean_write_lines(st0, h + nb);
    assert(e + (h + nb) =~= h + nb);
    assert(e + cleaned_lines(h + nb) =~= cleaned_lines(h + nb));
    assert(cleaner_state_clean(st0));
    law_cleaner_lines_have_no_trailing_white_space(st0, h + nb);
    law_notebook_ends_with_end_marker(s.skip(c1 as int), e);
    let close = notebook_close();
    let y = h + nb.take(nb.len() - close.len());
    assert(h + nb =~= y + close);
    lemma_cleaned_end(y);
}

} // verus!

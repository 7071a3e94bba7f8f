use vstd::prelude::*;
use crate::error::ParseError;
use crate::sink::{ByteSink, outcome};
use crate::parser::patterns::{
    COMMA, CLOSE_BRACKET, OPEN_BRACE, notebook_open, notebook_open_bytes, notebook_close,
    notebook_close_bytes,
};
use crate::parser::search::{find, find_byte, first_match, lemma_first_match};
use crate::parser::utilities::{
    advance, load_rest_of_function, read_consume_output, read_consume_output_spec, rest_extent,
    lemma_rest_extent,
};
use crate::parser::cell::{cell_list_spec, parse_cell_list};
use crate::parser::cell_group_data::first_error;

verus! {

/// What `parse_notebook_start` does on input `s` with the destination in state
/// `st`: the text before the first `{` is written and consumed.
pub open spec fn notebook_start_spec<O: ByteSink>(s: Seq<u8>, st: O::V) -> (Option<ParseError>, nat, O::V) {
    match first_match(s, seq![OPEN_BRACE]) {
        None => (Some(ParseError::NoNotebookCellList), 0, st),
        Some(q) => read_consume_output_spec::<O>(s, st, q as nat),
    }
}

/// What `parse_notebook_end` does on input `s` with the destination in state
/// `st`: the rest of `Notebook[...]` is consumed and replaced by
/// `]\n(* End of Notebook Content *)\n`, provided `s` starts at a `,` or at the
/// closing `]`.
pub open spec fn notebook_end_spec<O: ByteSink>(s: Seq<u8>, st: O::V) -> (Option<ParseError>, nat, O::V) {
    match rest_extent(s) {
        None => (Some(ParseError::EofInFunction), s.len(), st),
        Some((k, _)) => if k > 0 && (s[0] == COMMA || s[0] == CLOSE_BRACKET) {
            let (st1, err) = O::accept(st, notebook_close());
            (err, k, st1)
        } else {
            (Some(ParseError::BadNotebookEnd), k, st)
        },
    }
}

/// What `parse_notebook` does on input `s` with the destination in state `st`.
///
/// Everything before the first `Notebook[` is skipped; then the start of the
/// notebook, its list of cells and its end are parsed in turn (all three run
/// even if one fails), and the first error is the outcome.
pub open spec fn notebook_spec<O: ByteSink>(s: Seq<u8>, st: O::V) -> (Option<ParseError>, nat, O::V) {
    match first_match(s, notebook_open()) {
        None => (Some(ParseError::NoNotebook), 0, st),
        Some(p) => {
            let s1 = s.skip(p);
            let (e1, c1, st1) = notebook_start_spec::<O>(s1, st);
            let s2 = s1.skip(c1 as int);
            let (e2, c2, st2) = cell_list_spec::<O>(s2, st1);
            let s3 = s2.skip(c2 as int);
            let (e3, c3, st3) = notebook_end_spec::<O>(s3, st2);
            (first_error(e1, e2, e3), (p + c1 + c2 + c3) as nat, st3)
        },
    }
}

/// Parses the `Notebook[...]` function: writes it to `output` with its output
/// cells removed and its optional arguments (window size, front end version,
/// style definitions and so on) dropped, followed by `(* End of Notebook Content *)`.
///
/// The input need not start at the notebook: everything up to the first
/// `Notebook[` is consumed.  If there is none, nothing is consumed and the error
/// is `NoNotebook`.
pub fn parse_notebook<O: ByteSink>(input: &mut &[u8], output: &mut O) -> (r: Result<(), ParseError>)
    ensures
        ({
            let (err, consumed, st) = notebook_spec::<O>(old(input)@, old(output)@);
            &&& r == outcome(err)
            &&& consumed <= old(input)@.len()
            &&& final(input)@ == old(input)@.skip(consumed as int)
            &&& final(output)@ == st
        }),
{
    let ghost s = old(input)@;
    proof {
        lemma_first_match(s, notebook_open());
    }
    let pat = notebook_open_bytes();
    match find(*input, &pat) {
        None => {
            assert(s.skip(0) =~= s);
            Err(ParseError::NoNotebook)
        },
        Some(p) => {
            advance(input, p);
            let ghost s1 = input@;
            let r1 = parse_notebook_start(input, output);
            let ghost s2 = input@;
            let r2 = parse_cell_list(input, output);
            let ghost s3 = input@;
            let r3 = parse_notebook_end(input, output);
            proof {
                let c1 = notebook_start_spec::<O>(s1, old(output)@).1;
                let st1 = notebook_start_spec::<O>(s1, old(output)@).2;
                let c2 = cell_list_spec::<O>(s2, st1).1;
                let st2 = cell_list_spec::<O>(s2, st1).2;
                let c3 = notebook_end_spec::<O>(s3, st2).1;
                assert(s.skip(p as int).skip(c1 as int) =~= s.skip(p + c1));
                assert(s.skip(p + c1).skip(c2 as int) =~= s.skip(p + c1 + c2));
                assert(s.skip(p + c1 + c2).skip(c3 as int) =~= s.skip(p + c1 + c2 + c3));
            }
            if r1.is_err() {
                r1
            } else if r2.is_err() {
                r2
            } else {
                r3
            }
        },
    }
}

/// Parses the start of the `Notebook[...]` function, with `input` at its head:
/// writes and consumes the text up to, but not including, the `{` that opens
/// its list of cells.
pub fn parse_notebook_start<O: ByteSink>(input: &mut &[u8], output: &mut O) -> (r: Result<(), ParseError>)
    ensures
        ({
            let (err, consumed, st) = notebook_start_spec::<O>(old(input)@, old(output)@);
            &&& r == outcome(err)
            &&& consumed <= old(input)@.len()
            &&& final(input)@ == old(input)@.skip(consumed as int)
            &&& final(output)@ == st
        }),
{
    proof {
        lemma_first_match(old(input)@, seq![OPEN_BRACE]);
    }
    match find_byte(*input, OPEN_BRACE) {
        Some(pos) => read_consume_output(input, output, pos),
        None => {
            assert(old(input)@.skip(0) =~= old(input)@);
            Err(ParseError::NoNotebookCellList)
        },
    }
}

/// Parses the end of the `Notebook[...]` function, with `input` just after its
/// list of cells: consumes the rest of the function and writes
/// `]\n(* End of Notebook Content *)\n` in its place.
///
/// Fails with `BadNotebookEnd` unless the rest starts with `,` or `]`.
pub fn parse_notebook_end<O: ByteSink>(input: &mut &[u8], output: &mut O) -> (r: Result<(), ParseError>)
    ensures
        ({
            let (err, consumed, st) = notebook_end_spec::<O>(old(input)@, old(output)@);
            &&& r == outcome(err)
            &&& consumed <= old(input)@.len()
            &&& final(input)@ == old(input)@.skip(consumed as int)
            &&& final(output)@ == st
        }),
{
    proof {
        lemma_rest_extent(old(input)@);
    }
    let (s, _) = match load_rest_of_function(input) {
        Ok(x) => x,
        Err(e) => {
            return Err(e);
        },
    };
    if s.len() > 0 && (s[0] == COMMA || s[0] == CLOSE_BRACKET) {
        let close = notebook_close_bytes();
        output.write_all(&close)
    } else {
        Err(ParseError::BadNotebookEnd)
    }
}

} // verus!

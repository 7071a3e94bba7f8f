use vstd::prelude::*;
use crate::error::ParseError;
use crate::sink::{ByteSink, outcome};
use crate::parser::patterns::{
    COMMA, CLOSE_BRACKET, OPEN_BRACE, cell_group_data_open, cell_group_data_open_bytes,
};
use crate::parser::search::{find_byte, first_match, lemma_first_match};
use crate::parser::utilities::{
    advance, check_start, load_rest_of_function, rest_extent, lemma_rest_extent,
};
use crate::parser::cell::{cell_list_spec, parse_cell_list, lemma_cell_list_vec};

verus! {

/// The first error among three results run one after the other, as
/// `r1.and(r2).and(r3)` gives it.
pub open spec fn first_error(e1: Option<ParseError>, e2: Option<ParseError>, e3: Option<ParseError>) -> Option<ParseError> {
    if e1 is Some { e1 } else if e2 is Some { e2 } else { e3 }
}

/// What `parse_cell_group_data_start` does on input `u`: the text before the
/// first `{` is written and consumed.
pub open spec fn group_start_spec(u: Seq<u8>) -> (Option<ParseError>, nat, Seq<u8>) {
    match first_match(u, seq![OPEN_BRACE]) {
        None => (Some(ParseError::NoCellGroupDataList), 0, Seq::empty()),
        Some(q) => (None, q as nat, u.take(q)),
    }
}

/// What `parse_cell_group_data_end` does on input `u`: the rest of the
/// `CellGroupData[...]` is consumed and replaced by `]`, provided `u` starts at
/// a `,` or at the closing `]`.
pub open spec fn group_end_spec(u: Seq<u8>) -> (Option<ParseError>, nat, Seq<u8>) {
    match rest_extent(u) {
        None => (Some(ParseError::EofInFunction), u.len(), Seq::empty()),
        Some((k, _)) => if k > 0 && (u[0] == COMMA || u[0] == CLOSE_BRACKET) {
            (None, k, seq![CLOSE_BRACKET])
        } else {
            (Some(ParseError::BadCellGroupDataEnd), k, Seq::empty())
        },
    }
}

/// What `parse_cell_group_data` does on input `u`: the outcome, the bytes consumed
/// and the bytes written.
///
/// After checking that `u` starts with `CellGroupData[`, the start, the list of
/// cells and the end are parsed in turn (all three run even if one fails); the
/// optional arguments after the list are dropped.
pub open spec fn group_data_spec(u: Seq<u8>) -> (Option<ParseError>, nat, Seq<u8>)
    decreases u.len(), 4nat,
{
    if u.len() < cell_group_data_open().len() {
        (Some(ParseError::EofBeforeBytes), 0, Seq::empty())
    } else if u.take(cell_group_data_open().len() as int) != cell_group_data_open() {
        (Some(ParseError::NotCellGroupData), 0, Seq::empty())
    } else {
        proof {
            lemma_first_match(u, seq![OPEN_BRACE]);
        }
        let (e1, c1, w1) = group_start_spec(u);
        let u1 = u.skip(c1 as int);
        let (e2, c2, w2) = cell_list_spec::<Vec<u8>>(u1, Seq::empty());
        let u2 = u1.skip(c2 as int);
        let (e3, c3, w3) = group_end_spec(u2);
        (first_error(e1, e2, e3), c1 + c2 + c3, w1 + w2 + w3)
    }
}

/// Parses a `CellGroupData[...]` at the start of `input`, writing it to
/// `output` with the output cells of its list removed and its optional
/// arguments (which cells are open) dropped.
///
/// Fails with `NotCellGroupData` if `input` does not start with
/// `CellGroupData[`.  Otherwise the start, the list of cells and the end are
/// parsed in turn, each running even if an earlier one failed, and the first
/// error is returned.
pub fn parse_cell_group_data(input: &mut &[u8], output: &mut Vec<u8>) -> (r: Result<(), ParseError>)
    ensures
        ({
            let (err, consumed, w) = group_data_spec(old(input)@);
            &&& r == outcome(err)
            &&& consumed <= old(input)@.len()
            &&& final(input)@ == old(input)@.skip(consumed as int)
            &&& final(output)@ == old(output)@ + w
        }),
    decreases old(input)@.len(), 4nat,
{
    let pat = cell_group_data_open_bytes();
    match check_start(input, &pat) {
        Err(e) => {
            assert(old(input)@.skip(0) =~= old(input)@);
            assert(old(output)@ + Seq::<u8>::empty() =~= old(output)@);
            return Err(e);
        },
        Ok(false) => {
            assert(old(input)@.skip(0) =~= old(input)@);
            assert(old(output)@ + Seq::<u8>::empty() =~= old(output)@);
            return Err(ParseError::NotCellGroupData);
        },
        Ok(true) => {},
    }
    let ghost u = old(input)@;
    let ghost out0 = old(output)@;
    proof {
        lemma_first_match(u, seq![OPEN_BRACE]);
    }
    let r1 = parse_cell_group_data_start(input, output);
    let ghost u1 = input@;
    let ghost out1 = output@;
    let r2 = parse_cell_list(input, output);
    let ghost u2 = input@;
    let ghost out2 = output@;
    let r3 = parse_cell_group_data_end(input, output);
    proof {
        let (e1, c1, w1) = group_start_spec(u);
        let (e2, c2, st2) = cell_list_spec::<Vec<u8>>(u1, out1);
        let (e3, c3, w3) = group_end_spec(u2);
        lemma_cell_list_vec(u1, out1);
        let (_, _, w2) = cell_list_spec::<Vec<u8>>(u1, Seq::empty());
        assert(u.skip(c1 as int).skip(c2 as int).skip(c3 as int) =~= u.skip((c1 + c2 + c3) as int));
        assert(out0 + w1 + w2 + w3 =~= out0 + (w1 + w2 + w3));
    }
    if r1.is_err() {
        r1
    } else if r2.is_err() {
        r2
    } else {
        r3
    }
}

/// Parses the start of a `CellGroupData[...]`: writes and consumes the text up
/// to, but not including, the `{` that opens its list of cells.
pub fn parse_cell_group_data_start(input: &mut &[u8], output: &mut Vec<u8>) -> (r: Result<(), ParseError>)
    ensures
        ({
            let (err, consumed, w) = group_start_spec(old(input)@);
            &&& r == outcome(err)
            &&& consumed <= old(input)@.len()
            &&& final(input)@ == old(input)@.skip(consumed as int)
            &&& final(output)@ == old(output)@ + w
        }),
{
    proof {
        lemma_first_match(old(input)@, seq![OPEN_BRACE]);
    }
    match find_byte(*input, OPEN_BRACE) {
        Some(q) => {
            let head = vstd::slice::slice_subrange(*input, 0, q);
            let _ = output.write_all(head);
            advance(input, q);
            Ok(())
        },
        None => {
            assert(old(input)@.skip(0) =~= old(input)@);
            assert(old(output)@ + Seq::<u8>::empty() =~= old(output)@);
            Err(ParseError::NoCellGroupDataList)
        },
    }
}

/// Parses the end of a `CellGroupData[...]`, with `input` just after its list
/// of cells: consumes the rest of the function and writes `]` in its place.
///
/// Fails with `BadCellGroupDataEnd` unless the rest starts with `,` or `]`.
pub fn parse_cell_group_data_end(input: &mut &[u8], output: &mut Vec<u8>) -> (r: Result<(), ParseError>)
    ensures
        ({
            let (err, consumed, w) = group_end_spec(old(input)@);
            &&& r == outcome(err)
            &&& consumed <= old(input)@.len()
            &&& final(input)@ == old(input)@.skip(consumed as int)
            &&& final(output)@ == old(output)@ + w
        }),
{
    proof {
        lemma_rest_extent(old(input)@);
    }
    let (s, _) = match load_rest_of_function(input) {
        Ok(x) => x,
        Err(e) => {
            assert(old(output)@ + Seq::<u8>::empty() =~= old(output)@);
            return Err(e);
        },
    };
    if s.len() > 0 && (s[0] == COMMA || s[0] == CLOSE_BRACKET) {
        let close: [u8; 1] = [CLOSE_BRACKET];
        assert(close@ =~= seq![CLOSE_BRACKET]);
        let _ = output.write_all(&close);
        Ok(())
    } else {
        assert(old(output)@ + Seq::<u8>::empty() =~= old(output)@);
        Err(ParseError::BadCellGroupDataEnd)
    }
}

} // verus!

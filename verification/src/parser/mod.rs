pub mod patterns;
pub mod search;
pub mod utilities;
pub mod header;
pub mod cell;
pub mod cell_group_data;
pub mod notebook;
pub mod whitespace;
pub mod laws;
pub mod cleaner_laws;
pub mod list_laws;
pub mod clean_laws;
pub mod scan_laws;
pub mod option_laws;
pub mod header_laws;
pub mod input_laws;

use vstd::prelude::*;
use crate::error::ParseError;
use crate::sink::{ByteSink, outcome};
use crate::parser::header::{header_spec, parse_header};
use crate::parser::notebook::{notebook_spec, parse_notebook};
use crate::parser::whitespace::{CleanerState, WhitespaceCleaner};

verus! {

/// What `parse_input` does on input `s`: the outcome, the number of bytes
/// consumed and the bytes written to the output.
///
/// The header and the notebook are parsed in turn (the notebook even if the
/// header failed) into a whitespace cleaner, and the first error is the outcome.
/// What the cleaner passed on is written; an incomplete last line left pending
/// in it is not.
pub open spec fn input_spec(s: Seq<u8>) -> (Option<ParseError>, nat, Seq<u8>) {
    let st0: CleanerState = (Seq::empty(), Seq::empty());
    let (e1, c1, st1) = header_spec::<WhitespaceCleaner>(s, st0);
    let (e2, c2, st2) = notebook_spec::<WhitespaceCleaner>(s.skip(c1 as int), st1);
    (if e1 is Some { e1 } else { e2 }, c1 + c2, st2.1)
}

/// Parses a Mathematica notebook from `input` and writes it to `output` stripped
/// of its output cells and metadata, with the trailing whitespace of each line
/// removed.
pub fn parse_input(input: &mut &[u8], output: &mut Vec<u8>) -> (r: Result<(), ParseError>)
    ensures
        ({
            let (err, consumed, w) = input_spec(old(input)@);
            &&& r == outcome(err)
            &&& consumed <= old(input)@.len()
            &&& final(input)@ == old(input)@.skip(consumed as int)
            &&& final(output)@ == old(output)@ + w
        }),
{
    let ghost s = old(input)@;
    let mut cleaner = WhitespaceCleaner::new(Vec::new());
    let r1 = parse_header(input, &mut cleaner);
    let ghost s1 = input@;
    let r2 = parse_notebook(input, &mut cleaner);
    proof {
        let st0: CleanerState = (Seq::empty(), Seq::empty());
        let c1 = header_spec::<WhitespaceCleaner>(s, st0).1;
        let st1 = header_spec::<WhitespaceCleaner>(s, st0).2;
        let c2 = notebook_spec::<WhitespaceCleaner>(s1, st1).1;
        assert(s.skip(c1 as int).skip(c2 as int) =~= s.skip((c1 + c2) as int));
    }
    let cleaned = cleaner.into_inner();
    let _ = output.write_all(cleaned.as_slice());
    if r1.is_err() {
        r1
    } else {
        r2
    }
}

} // verus!

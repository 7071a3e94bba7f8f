use vstd::prelude::*;
use crate::error::ParseError;
use crate::sink::{ByteSink, write_chunks, outcome};
use crate::parser::patterns::{
    CLOSE_PAREN, NEWLINE, content_type_marker, content_type_marker_bytes, beginning_marker,
    beginning_marker_bytes,
};
use crate::parser::search::{find, first_match, lemma_first_match};
use crate::parser::utilities::advance;

verus! {

/// The length of the text up to and including the first byte `b` of `s`, or all
/// of `s` if `b` does not occur.
pub open spec fn until_len(s: Seq<u8>, b: u8) -> nat {
    match first_match(s, seq![b]) {
        Some(p) => (p + 1) as nat,
        None => s.len(),
    }
}

/// Reads and consumes `input` up to and including the first `b`, or to its end.
fn read_until(input: &mut &[u8], b: u8) -> (r: Vec<u8>)
    ensures
        until_len(old(input)@, b) <= old(input)@.len(),
        r@ == old(input)@.take(until_len(old(input)@, b) as int),
        final(input)@ == old(input)@.skip(until_len(old(input)@, b) as int),
{
    proof {
        lemma_first_match(old(input)@, seq![b]);
    }
    let buf: &[u8] = *input;
    let n = buf.len();
    let end = match crate::parser::search::find_byte(buf, b) {
        Some(p) => p + 1,
        None => n,
    };
    let mut out: Vec<u8> = Vec::new();
    let mut i: usize = 0;
    while i < end
        invariant
            end <= n,
            n == buf@.len(),
            i <= end,
            out@ == buf@.take(i as int),
        decreases end - i,
    {
        out.push(buf[i]);
        i = i + 1;
        assert(out@ =~= buf@.take(i as int));
    }
    advance(input, end);
    out
}

/// What `parse_content_type` does on input `s` with the destination in state `st`:
/// the outcome, the number of bytes consumed and the new destination state.
///
/// Everything before the first `(* Content-type: ` is skipped; the text from there
/// up to and including the next `)` (or to the end) is written, followed by a newline.
pub open spec fn content_type_spec<O: ByteSink>(s: Seq<u8>, st: O::V) -> (Option<ParseError>, nat, O::V) {
    match first_match(s, content_type_marker()) {
        None => (Some(ParseError::NoContentType), 0, st),
        Some(p) => {
            let t = s.skip(p);
            let n = until_len(t, CLOSE_PAREN);
            let (st2, r) = write_chunks::<O>(st, seq![t.take(n as int), seq![NEWLINE]]);
            (r, (p + n) as nat, st2)
        },
    }
}

/// Parses the input up to the content-type comment
/// `(* Content-type: application/vnd.wolfram.mathematica *)` and writes that
/// comment, followed by a newline, to `output`.
///
/// Everything up to and including the closing parenthesis is consumed.  If no
/// such comment is found, nothing is consumed and the error is `NoContentType`.
pub fn parse_content_type<O: ByteSink>(input: &mut &[u8], output: &mut O) -> (r: Result<(), ParseError>)
    ensures
        ({
            let (err, consumed, st) = content_type_spec::<O>(old(input)@, old(output)@);
            &&& r == outcome(err)
            &&& consumed <= old(input)@.len()
            &&& final(input)@ == old(input)@.skip(consumed as int)
            &&& final(output)@ == st
        }),
{
    proof {
        lemma_first_match(old(input)@, content_type_marker());
        reveal_with_fuel(write_chunks, 3);
    }
    let marker = content_type_marker_bytes();
    match find(*input, &marker) {
        Some(pos) => {
            advance(input, pos);
            let ghost t = input@;
            let out = read_until(input, CLOSE_PAREN);
            assert(old(input)@.skip(pos as int).skip(until_len(t, CLOSE_PAREN) as int)
                =~= old(input)@.skip(pos + until_len(t, CLOSE_PAREN)));
            let ghost chunks = seq![out@, seq![NEWLINE]];
            let ghost st0 = output@;
            let r1 = output.write_all(out.as_slice());
            assert(chunks[0] == out@);
            match r1 {
                Ok(()) => {
                    let ghost st1 = output@;
                    let nl: [u8; 1] = [NEWLINE];
                    assert(nl@ =~= seq![NEWLINE]);
                    let r2 = output.write_all(&nl);
                    assert(chunks.drop_first().drop_first() =~= Seq::<Seq<u8>>::empty());
                    assert(chunks.drop_first() =~= seq![seq![NEWLINE]]);
                    r2
                },
                Err(e) => Err(e),
            }
        },
        None => {
            assert(old(input)@.skip(0) =~= old(input)@);
            Err(ParseError::NoContentType)
        },
    }
}

/// What `parse_beginning_notebook` does on input `s` with the destination in state `st`.
///
/// Everything before the first `(* Beginning of Notebook Content *)` is skipped;
/// that comment is written between two newlines.
pub open spec fn beginning_notebook_spec<O: ByteSink>(s: Seq<u8>, st: O::V) -> (Option<ParseError>, nat, O::V) {
    match first_match(s, beginning_marker()) {
        None => (Some(ParseError::NoBeginningOfNotebook), 0, st),
        Some(p) => {
            let t = s.skip(p);
            let n = until_len(t, CLOSE_PAREN);
            let (st2, r) = write_chunks::<O>(st, seq![seq![NEWLINE], t.take(n as int), seq![NEWLINE]]);
            (r, (p + n) as nat, st2)
        },
    }
}

/// Parses the input up to the comment `(* Beginning of Notebook Content *)` and
/// writes that comment, with a newline before and after it, to `output`.
///
/// Everything up to and including the closing parenthesis is consumed.  If no
/// such comment is found, nothing is consumed and the error is `NoBeginningOfNotebook`.
pub fn parse_beginning_notebook<O: ByteSink>(input: &mut &[u8], output: &mut O) -> (r: Result<(), ParseError>)
    ensures
        ({
            let (err, consumed, st) = beginning_notebook_spec::<O>(old(input)@, old(output)@);
            &&& r == outcome(err)
            &&& consumed <= old(input)@.len()
            &&& final(input)@ == old(input)@.skip(consumed as int)
            &&& final(output)@ == st
        }),
{
    proof {
        lemma_first_match(old(input)@, beginning_marker());
        reveal_with_fuel(write_chunks, 4);
    }
    let marker = beginning_marker_bytes();
    match find(*input, &marker) {
        Some(pos) => {
            advance(input, pos);
            let ghost t = input@;
            let out = read_until(input, CLOSE_PAREN);
            assert(old(input)@.skip(pos as int).skip(until_len(t, CLOSE_PAREN) as int)
                =~= old(input)@.skip(pos + until_len(t, CLOSE_PAREN)));
            let ghost chunks = seq![seq![NEWLINE], out@, seq![NEWLINE]];
            let nl: [u8; 1] = [NEWLINE];
            assert(nl@ =~= seq![NEWLINE]);
            assert(chunks.drop_first() =~= seq![out@, seq![NEWLINE]]);
            assert(chunks.drop_first().drop_first() =~= seq![seq![NEWLINE]]);
            assert(chunks.drop_first().drop_first().drop_first() =~= Seq::<Seq<u8>>::empty());
            match output.write_all(&nl) {
                Ok(()) => {},
                Err(e) => { return Err(e); },
            }
            match output.write_all(out.as_slice()) {
                Ok(()) => {},
                Err(e) => { return Err(e); },
            }
            output.write_all(&nl)
        },
        None => {
            assert(old(input)@.skip(0) =~= old(input)@);
            Err(ParseError::NoBeginningOfNotebook)
        },
    }
}

/// What `parse_header` does on input `s` with the destination in state `st`:
/// the content-type comment and then the beginning-of-notebook comment are
/// parsed (the second runs even if the first fails), and the first error is the
/// outcome.
pub open spec fn header_spec<O: ByteSink>(s: Seq<u8>, st: O::V) -> (Option<ParseError>, nat, O::V) {
    let (e1, c1, st1) = content_type_spec::<O>(s, st);
    let (e2, c2, st2) = beginning_notebook_spec::<O>(s.skip(c1 as int), st1);
    (if e1 is Some { e1 } else { e2 }, c1 + c2, st2)
}

/// Parses the header of a notebook file: the content-type comment, then the
/// beginning-of-notebook comment, writing both to `output`.
pub fn parse_header<O: ByteSink>(input: &mut &[u8], output: &mut O) -> (r: Result<(), ParseError>)
    ensures
        ({
            let (err, consumed, st) = header_spec::<O>(old(input)@, old(output)@);
            &&& r == outcome(err)
            &&& consumed <= old(input)@.len()
            &&& final(input)@ == old(input)@.skip(consumed as int)
            &&& final(output)@ == st
        }),
{
    let ghost s = old(input)@;
    let r1 = parse_content_type(input, output);
    let ghost s1 = input@;
    let r2 = parse_beginning_notebook(input, output);
    proof {
        let c1 = content_type_spec::<O>(s, old(output)@).1;
        let st1 = content_type_spec::<O>(s, old(output)@).2;
        let c2 = beginning_notebook_spec::<O>(s1, st1).1;
        assert(s.skip(c1 as int).skip(c2 as int) =~= s.skip((c1 + c2) as int));
    }
    if r1.is_err() {
        r1
    } else {
        r2
    }
}

} // verus!

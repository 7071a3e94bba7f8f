use vstd::prelude::*;
use vstd::utf8::{
    valid_utf8, valid_utf8_split, valid_utf8_concat, is_char_boundary_iff_not_is_continuation_byte,
};
use crate::sink::write_chunks;
use crate::parser::patterns::NEWLINE;
use crate::parser::search::{first_match, lemma_first_match};
use crate::parser::whitespace::{
    CleanerState, WhitespaceCleaner, clean_write, flushed, line_len, trim_trailing_white_space,
};
use crate::parser::laws::{has_no_newline, lemma_first_newline};

verus! {

/// The complete lines of `x` (those ended by a line feed), each without its
/// trailing whitespace and ended by a single line feed.
pub open spec fn cleaned_lines(x: Seq<u8>) -> Seq<u8>
    decreases x.len(),
{
    match first_match(x, seq![NEWLINE]) {
        None => Seq::empty(),
        Some(p) => {
            proof {
                lemma_first_match(x, seq![NEWLINE]);
            }
            trim_trailing_white_space(x.take(p + 1)) + seq![NEWLINE] + cleaned_lines(x.skip(p + 1))
        },
    }
}

/// The text of `x` after its last line feed, or all of `x` if it has none.
pub open spec fn last_line(x: Seq<u8>) -> Seq<u8>
    decreases x.len(),
{
    match first_match(x, seq![NEWLINE]) {
        None => x,
        Some(p) => {
            proof {
                lemma_first_match(x, seq![NEWLINE]);
            }
            last_line(x.skip(p + 1))
        },
    }
}

/// Text without a line feed in front of `b` moves the first line feed of `b`
/// along by its length.
pub proof fn lemma_first_newline_after(a: Seq<u8>, b: Seq<u8>)
    requires
        has_no_newline(a),
    ensures
        first_match(a + b, seq![NEWLINE]) == match first_match(b, seq![NEWLINE]) {
            Some(p) => Some(a.len() + p),
            None => None::<int>,
        },
{
    let ab = a + b;
    lemma_first_newline(b);
    lemma_first_newline(ab);
    match first_match(b, seq![NEWLINE]) {
        Some(p) => {
            assert(ab[a.len() + p] == b[p]);
            match first_match(ab, seq![NEWLINE]) {
                None => {
                    assert(ab[a.len() + p] != NEWLINE);
                },
                Some(q) => {
                    if q < a.len() + p {
                        if q < a.len() {
                            assert(ab[q] == a[q]);
                        } else {
                            assert(ab[q] == b[q - a.len()]);
                            assert(b.take(p)[q - a.len()] == b[q - a.len()]);
                        }
                    } else if q > a.len() + p {
                        assert(ab.take(q)[a.len() + p] == ab[a.len() + p]);
                    }
                },
            }
        },
        None => {
            if let Some(q) = first_match(ab, seq![NEWLINE]) {
                if q < a.len() {
                    assert(ab[q] == a[q]);
                } else {
                    assert(ab[q] == b[q - a.len()]);
                }
            }
        },
    }
}

/// The first line feed of `x` is still the first one once text is added after `x`.
proof fn lemma_first_newline_before(x: Seq<u8>, y: Seq<u8>)
    requires
        first_match(x, seq![NEWLINE]) is Some,
    ensures
        first_match(x + y, seq![NEWLINE]) == first_match(x, seq![NEWLINE]),
{
    let xy = x + y;
    lemma_first_newline(x);
    lemma_first_newline(xy);
    let p = first_match(x, seq![NEWLINE]).unwrap();
    assert(xy[p] == x[p]);
    match first_match(xy, seq![NEWLINE]) {
        None => {
            assert(xy[p] != NEWLINE);
        },
        Some(q) => {
            if q < p {
                assert(xy[q] == x[q]);
                assert(x.take(p)[q] == x[q]);
            } else if q > p {
                assert(xy.take(q)[p] == xy[p]);
            }
        },
    }
}

/// What follows the last line feed holds no line feed.
pub proof fn lemma_last_line_has_no_newline(x: Seq<u8>)
    ensures
        has_no_newline(last_line(x)),
    decreases x.len(),
{
    lemma_first_newline(x);
    if let Some(p) = first_match(x, seq![NEWLINE]) {
        lemma_last_line_has_no_newline(x.skip(p + 1));
    }
}

/// Text without a line feed has no complete line and is all last line.
proof fn lemma_no_newline_lines(x: Seq<u8>)
    requires
        has_no_newline(x),
    ensures
        cleaned_lines(x) == Seq::<u8>::empty(),
        last_line(x) == x,
{
    lemma_first_newline(x);
    if let Some(p) = first_match(x, seq![NEWLINE]) {
        assert(x[p] != NEWLINE);
    }
}

/// The lines of `x + y` are those of `x` followed by those of the last line of
/// `x` continued by `y`.
pub proof fn lemma_lines_concat(x: Seq<u8>, y: Seq<u8>)
    ensures
        cleaned_lines(x + y) == cleaned_lines(x) + cleaned_lines(last_line(x) + y),
        last_line(x + y) == last_line(last_line(x) + y),
    decreases x.len(),
{
    lemma_first_newline(x);
    match first_match(x, seq![NEWLINE]) {
        None => {
            assert(Seq::<u8>::empty() + cleaned_lines(x + y) =~= cleaned_lines(x + y));
        },
        Some(p) => {
            lemma_first_newline_before(x, y);
            let r = x.skip(p + 1);
            lemma_lines_concat(r, y);
            assert((x + y).take(p + 1) =~= x.take(p + 1));
            assert((x + y).skip(p + 1) =~= r + y);
            let head = trim_trailing_white_space(x.take(p + 1)) + seq![NEWLINE];
            assert(head + (cleaned_lines(r) + cleaned_lines(last_line(r) + y))
                =~= head + cleaned_lines(r) + cleaned_lines(last_line(r) + y));
        },
    }
}

/// A successful write to a whitespace cleaner whose pending line holds no line
/// feed passes on the cleaned complete lines of the pending text followed by
/// `b`, and keeps pending what follows their last line feed.
pub proof fn lemma_clean_write_lines(st: CleanerState, b: Seq<u8>)
    requires
        has_no_newline(st.0),
        clean_write(st, b).1 is None,
    ensures
        clean_write(st, b).0 == (last_line(st.0 + b), st.1 + cleaned_lines(st.0 + b)),
    decreases b.len(),
{
    if b.len() == 0 {
        assert(st.0 + b =~= st.0);
        lemma_no_newline_lines(st.0);
        assert(st.1 + Seq::<u8>::empty() =~= st.1);
    } else {
        lemma_first_newline(b);
        lemma_first_match(b, seq![NEWLINE]);
        lemma_first_newline_after(st.0, b);
        let n = line_len(b);
        let piece = b.take(n as int);
        let line = st.0 + piece;
        let x = st.0 + b;
        match first_match(b, seq![NEWLINE]) {
            Some(p) => {
                assert(line.last() == b[p]);
                let e = Seq::<u8>::empty();
                let st1: CleanerState = (e, st.1 + trim_trailing_white_space(line) + seq![NEWLINE]);
                lemma_clean_write_lines(st1, b.skip(n as int));
                assert(e + b.skip(n as int) =~= b.skip(n as int));
                assert(x.take(st.0.len() + p + 1) =~= line);
                assert(x.skip(st.0.len() + p + 1) =~= b.skip(n as int));
                assert(n == p + 1);
                assert(first_match(x, seq![NEWLINE]) == Some(st.0.len() + p));
                assert(clean_write(st, b) == clean_write(st1, b.skip(n as int)));
                assert(cleaned_lines(x) == trim_trailing_white_space(line) + seq![NEWLINE]
                    + cleaned_lines(b.skip(n as int)));
                assert(last_line(x) == last_line(b.skip(n as int)));
                assert(st1.1 + cleaned_lines(b.skip(n as int)) =~= st.1 + (trim_trailing_white_space(
                    line,
                ) + seq![NEWLINE] + cleaned_lines(b.skip(n as int))));
            },
            None => {
                assert(piece =~= b);
                assert(line.last() == b[b.len() - 1]);
                assert(b.skip(n as int) =~= Seq::<u8>::empty());
                assert(has_no_newline(x)) by {
                    lemma_first_newline(x);
                }
                lemma_no_newline_lines(x);
                assert(clean_write(st, b) == clean_write((line, st.1), b.skip(n as int)));
                assert(st.1 + Seq::<u8>::empty() =~= st.1);
            },
        }
    }
}

/// Writing chunks one after the other to a cleaner whose pending line holds no
/// line feed: on success, as one write of the pending text and all the chunks.
proof fn lemma_write_chunks_lines(st: CleanerState, chunks: Seq<Seq<u8>>)
    requires
        has_no_newline(st.0),
        write_chunks::<WhitespaceCleaner>(st, chunks).1 is None,
    ensures
        write_chunks::<WhitespaceCleaner>(st, chunks).0 == (
            last_line(st.0 + chunks.flatten()),
            st.1 + cleaned_lines(st.0 + chunks.flatten()),
        ),
    decreases chunks.len(),
{
    if chunks.len() == 0 {
        assert(st.0 + chunks.flatten() =~= st.0);
        lemma_no_newline_lines(st.0);
        assert(st.1 + Seq::<u8>::empty() =~= st.1);
    } else {
        let c0 = chunks[0];
        let rest = chunks.drop_first();
        lemma_clean_write_lines(st, c0);
        let st1 = clean_write(st, c0).0;
        lemma_last_line_has_no_newline(st.0 + c0);
        lemma_write_chunks_lines(st1, rest);
        let x = st.0 + c0;
        lemma_lines_concat(x, rest.flatten());
        assert(st.0 + chunks.flatten() =~= x + rest.flatten());
        assert(st.1 + cleaned_lines(x) + cleaned_lines(last_line(x) + rest.flatten()) =~= st.1 + (
        cleaned_lines(x) + cleaned_lines(last_line(x) + rest.flatten())));
    }
}

/// A whitespace cleaner passes on the cleaned lines of all that was written to
/// it: started afresh on output `o`, once the writes `chunks` have all succeeded,
/// it has passed on `o` followed by the complete lines of the text written (the
/// chunks one after the other), each without its trailing whitespace and ended
/// by a single line feed, however the text was cut into writes; the text after
/// the last line feed is pending.
pub proof fn law_cleaner_output_is_cleaned_lines(o: Seq<u8>, chunks: Seq<Seq<u8>>)
    requires
        write_chunks::<WhitespaceCleaner>((Seq::empty(), o), chunks).1 is None,
    ensures
        write_chunks::<WhitespaceCleaner>((Seq::empty(), o), chunks).0 == (
            last_line(chunks.flatten()),
            o + cleaned_lines(chunks.flatten()),
        ),
{
    let e = Seq::<u8>::empty();
    lemma_write_chunks_lines((e, o), chunks);
    assert(e + chunks.flatten() =~= chunks.flatten());
}

/// Flushing passes on exactly the text after the last line feed written, as it
/// is, trailing whitespace included: started afresh on output `o`, after the
/// successful writes `chunks` and a flush, the output is `o`, the cleaned
/// complete lines of the text written, and that text's last line; a second
/// flush right after passes on nothing more.
pub proof fn law_flush_passes_last_line(o: Seq<u8>, chunks: Seq<Seq<u8>>)
    requires
        write_chunks::<WhitespaceCleaner>((Seq::empty(), o), chunks).1 is None,
    ensures
        ({
            let st = write_chunks::<WhitespaceCleaner>((Seq::empty(), o), chunks).0;
            &&& flushed(st) == (
                Seq::<u8>::empty(),
                o + cleaned_lines(chunks.flatten()) + last_line(chunks.flatten()),
            )
            &&& flushed(flushed(st)) == flushed(st)
        }),
{
    law_cleaner_output_is_cleaned_lines(o, chunks);
    let st = write_chunks::<WhitespaceCleaner>((Seq::empty(), o), chunks).0;
    assert(flushed(st).1 + Seq::<u8>::empty() =~= flushed(st).1);
}

/// Valid UTF-8 cut at a line feed leaves valid UTF-8 on both sides: up to and
/// including the line feed, and after it.
proof fn lemma_utf8_split_at_newline(b: Seq<u8>, p: int)
    requires
        valid_utf8(b),
        0 <= p < b.len(),
        b[p] == NEWLINE,
    ensures
        valid_utf8(b.take(p + 1)),
        valid_utf8(b.skip(p + 1)),
{
    is_char_boundary_iff_not_is_continuation_byte(b, p);
    valid_utf8_split(b, p);
    let c = b.subrange(p, b.len() as int);
    assert(c[0] == NEWLINE);
    assert(valid_utf8(c));
    assert(c.subrange(1, c.len() as int) =~= b.skip(p + 1));
    let nl = seq![NEWLINE];
    assert(nl.subrange(1, 1) =~= Seq::<u8>::empty());
    assert(valid_utf8(nl.subrange(1, 1)));
    assert(valid_utf8(nl));
    valid_utf8_concat(b.subrange(0, p), nl);
    assert(b.subrange(0, p) + nl =~= b.take(p + 1));
}

/// Writing valid UTF-8 to a whitespace cleaner succeeds, whatever its state.
proof fn lemma_clean_write_valid_utf8(st: CleanerState, b: Seq<u8>)
    requires
        valid_utf8(b),
    ensures
        clean_write(st, b).1 is None,
    decreases b.len(),
{
    if b.len() > 0 {
        lemma_first_newline(b);
        lemma_first_match(b, seq![NEWLINE]);
        let n = line_len(b);
        match first_match(b, seq![NEWLINE]) {
            Some(p) => {
                lemma_utf8_split_at_newline(b, p);
            },
            None => {
                assert(b.take(n as int) =~= b);
                assert(b.skip(n as int) =~= Seq::<u8>::empty());
            },
        }
        let piece = b.take(n as int);
        let line = st.0 + piece;
        let st1 = if line.last() == NEWLINE {
            (Seq::<u8>::empty(), st.1 + trim_trailing_white_space(line) + seq![NEWLINE])
        } else {
            (line, st.1)
        };
        lemma_clean_write_valid_utf8(st1, b.skip(n as int));
    }
}

/// A whitespace cleaner takes valid UTF-8: when every chunk written is valid
/// UTF-8, every write succeeds.
pub proof fn law_cleaner_takes_valid_utf8(st: CleanerState, chunks: Seq<Seq<u8>>)
    requires
        forall|i: int| 0 <= i < chunks.len() ==> valid_utf8(#[trigger] chunks[i]),
    ensures
        write_chunks::<WhitespaceCleaner>(st, chunks).1 is None,
    decreases chunks.len(),
{
    if chunks.len() > 0 {
        lemma_clean_write_valid_utf8(st, chunks[0]);
        let rest = chunks.drop_first();
        assert forall|i: int| 0 <= i < rest.len() implies valid_utf8(#[trigger] rest[i]) by {
            assert(rest[i] == chunks[i + 1]);
        }
        law_cleaner_takes_valid_utf8(clean_write(st, chunks[0]).0, rest);
    }
}

} // verus!

use vstd::prelude::*;
use crate::parser::patterns::{
    NEWLINE, OPEN_BRACE, CLOSE_BRACE, CLOSE_BRACKET, cell_open, notebook_close,
    cell_group_data_open,
};
use crate::parser::utilities::{
    read_consume_output_spec, function_extent, extent_len, lemma_function_extent,
    lemma_function_extent_len, FunctionState, function_scan, function_step, function_done,
    function_start,
};
use crate::parser::cell::{
    cell_spec, cell_options, is_dropped_style, cell_loop_spec, cell_list_spec, brace_first,
    next_cell, next_brace, group_window_end, lemma_cell_spec_consumed,
};
use crate::parser::notebook::notebook_spec;
use crate::parser::search::{first_match, matches_at, lemma_first_match};
use crate::parser::whitespace::{
    CleanerState, clean_write, line_len, trim_trailing_white_space, white_space_suffix_len,
    is_white_space_char, trim_end_chars,
};
use vstd::utf8::{
    valid_utf8, decode_utf8, encode_utf8, encode_scalar, has_width_1_encoding,
    has_width_2_encoding, has_width_3_encoding, has_width_4_encoding, leading_byte_width_1,
    leading_byte_width_2, leading_byte_width_3, leading_byte_width_4, last_continuation_byte,
    second_last_continuation_byte, third_last_continuation_byte, char_is_scalar,
    decode_utf8_encode_utf8, encode_utf8_decode_utf8, encode_utf8_valid_utf8,
};

verus! {

/// Copying into a vector moves bytes without changing them: when
/// `read_consume_output` succeeds, the bytes appended to the output are exactly
/// the bytes consumed from the input, and the input keeps the rest.
pub proof fn law_read_consume_output_moves_bytes(s: Seq<u8>, out: Seq<u8>, len: nat)
    requires
        len <= s.len(),
    ensures
        ({
            let (err, consumed, out2) = read_consume_output_spec::<Vec<u8>>(s, out, len);
            &&& err is None
            &&& consumed == len
            &&& out2 == out + s.take(len as int)
            &&& s.take(consumed as int) + s.skip(consumed as int) == s
        }),
{
    assert(s.take(len as int) + s.skip(len as int) =~= s);
}

/// Copying in two steps is copying once: into a vector, copying `a` bytes and
/// then `b` more consumes and writes exactly what copying `a + b` bytes at once
/// does, whenever the input holds `a + b` bytes.
pub proof fn law_read_consume_output_in_two_steps(s: Seq<u8>, out: Seq<u8>, a: nat, b: nat)
    requires
        a + b <= s.len(),
    ensures
        ({
            let (e1, n1, out1) = read_consume_output_spec::<Vec<u8>>(s, out, a);
            let (e2, n2, out2) = read_consume_output_spec::<Vec<u8>>(s.skip(n1 as int), out1, b);
            &&& e1 is None && e2 is None
            &&& read_consume_output_spec::<Vec<u8>>(s, out, a + b) == (None::<crate::error::ParseError>, n1 + n2, out2)
            &&& s.skip(n1 as int).skip(n2 as int) == s.skip((n1 + n2) as int)
        }),
{
    let r = s.skip(a as int);
    assert(out + s.take(a as int) + r.take(b as int) =~= out + s.take((a + b) as int));
    assert(r.skip(b as int) =~= s.skip((a + b) as int));
}

/// An output cell is dropped: a cell whose second argument marks it as output
/// (it mentions `"Output"`, `"Print"`, `"PrintTemporary"` or `"Message"`) is
/// consumed whole, nothing of it is written, and the result is `Ok(false)`.
pub proof fn law_output_cell_is_dropped(t: Seq<u8>)
    requires
        t.len() <= usize::MAX,
        t.len() >= cell_open().len(),
        t.take(cell_open().len() as int) == cell_open(),
        function_extent(t) is Some,
        ({
            let (k, args) = function_extent(t).unwrap();
            args.len() >= 3 && is_dropped_style(t.take(k as int).subrange(args[1] as int, args[2] as int))
        }),
    ensures
        cell_spec(t).0 == Ok::<bool, crate::error::ParseError>(false),
        cell_spec(t).1 == extent_len(t),
        cell_spec(t).2 == Seq::<u8>::empty(),
{
}

/// `parse_cell` reports whether it wrote anything: when it succeeds, the result
/// is `true` exactly when the bytes written are not empty.
pub proof fn law_cell_result_tells_if_written(t: Seq<u8>)
    ensures
        cell_spec(t).0 matches Ok(kept) ==> (kept <==> cell_spec(t).2.len() > 0),
{
    if let Ok(kept) = cell_spec(t).0 {
        if kept {
            let (k, args) = function_extent(t).unwrap();
            let cb = t.take(k as int);
            lemma_cell_options_ends_with_bracket(cb, args, 2);
        }
    }
}

/// What is written for the options of a cell always ends with the closing `]`.
proof fn lemma_cell_options_ends_with_bracket(cb: Seq<u8>, args: Seq<usize>, i: int)
    ensures
        cell_options(cb, args, i).len() > 0,
    decreases args.len() - i,
{
    if i < 0 || i + 1 >= args.len() {
    } else {
        lemma_cell_options_ends_with_bracket(cb, args, i + 1);
    }
}

/// A notebook that is parsed without error ends with
/// `]\n(* End of Notebook Content *)\n`.
pub proof fn law_notebook_ends_with_end_marker(s: Seq<u8>, out: Seq<u8>)
    requires
        notebook_spec::<Vec<u8>>(s, out).0 is None,
    ensures
        ({
            let w = notebook_spec::<Vec<u8>>(s, out).2;
            &&& w.len() >= notebook_close().len()
            &&& w.subrange(w.len() - notebook_close().len(), w.len() as int) == notebook_close()
        }),
{
    let w = notebook_spec::<Vec<u8>>(s, out).2;
    let n = w.len() - notebook_close().len();
    assert(w.subrange(n, w.len() as int) =~= notebook_close());
}

/// A kept cell with neither options nor a cell group in its contents is written
/// unchanged: a `Cell[contents]` or `Cell[contents, "style"]` closed by `]`,
/// whose style is not an output style and whose contents do not start a
/// `CellGroupData[`, is copied to the output byte for byte.
pub proof fn law_plain_cell_is_copied(t: Seq<u8>)
    requires
        t.len() <= usize::MAX,
        t.len() >= cell_open().len(),
        t.take(cell_open().len() as int) == cell_open(),
        function_extent(t) is Some,
        ({
            let (k, args) = function_extent(t).unwrap();
            let cb = t.take(k as int);
            &&& 2 <= args.len() <= 3
            &&& args.last() == k
            &&& t[k - 1] == CLOSE_BRACKET
            &&& args.len() == 3 ==> !is_dropped_style(cb.subrange(args[1] as int, args[2] as int))
            &&& first_match(
                cb.subrange(args[0] as int, group_window_end(args[0] as int, args[1] as int)),
                cell_group_data_open(),
            ) is None
        }),
    ensures
        cell_spec(t).0 == Ok::<bool, crate::error::ParseError>(true),
        cell_spec(t).1 == extent_len(t),
        cell_spec(t).2 == t.take(extent_len(t) as int),
{
    lemma_function_extent(t);
    let (k, args) = function_extent(t).unwrap();
    let cb = t.take(k as int);
    assert(cell_options(cb, args, 2) == seq![CLOSE_BRACKET]);
    assert(cb.take(k - 1) + seq![CLOSE_BRACKET] =~= cb);
}

/// The cell-list loop, into a vector, ends its output and its consumption with
/// the closing `}` of the list whenever it succeeds.
proof fn lemma_cell_loop_closes(s: Seq<u8>, start: bool, st: Seq<u8>)
    requires
        cell_loop_spec::<Vec<u8>>(s, start, st).0 is None,
    ensures
        ({
            let (_, n, out) = cell_loop_spec::<Vec<u8>>(s, start, st);
            &&& 1 <= n <= s.len()
            &&& s[n - 1] == CLOSE_BRACE
            &&& out.len() > st.len()
            &&& out.subrange(0, st.len() as int) == st
            &&& out.last() == CLOSE_BRACE
        }),
    decreases s.len(),
{
    lemma_first_match(s, cell_open());
    lemma_first_match(s, seq![CLOSE_BRACE]);
    if brace_first(s) {
        let b = next_brace(s).unwrap();
        assert(s.subrange(b, b + 1)[0] == s[b]);
        let out = st + s.take(b + 1);
        assert(out.subrange(0, st.len() as int) =~= st);
        assert(out.last() == s[b]);
    } else {
        let c = next_cell(s).unwrap();
        lemma_function_extent_len(s.skip(c));
        let t = s.skip(c);
        lemma_cell_spec_consumed(t);
        let pre = if start { Seq::empty() } else { s.take(c) };
        let (r, n, w) = cell_spec(t);
        let k = extent_len(t);
        let rest = s.skip(c + k);
        if r == Ok::<bool, crate::error::ParseError>(true) {
            let st1 = st + (pre + w);
            lemma_cell_loop_closes(rest, false, st1);
            let (_, n2, out) = cell_loop_spec::<Vec<u8>>(rest, false, st1);
            assert(s[c + k + n2 - 1] == rest[n2 - 1]);
            assert(out.subrange(0, st.len() as int) =~= out.subrange(0, st1.len() as int).subrange(0, st.len() as int));
            assert(st1.subrange(0, st.len() as int) =~= st);
        } else {
            lemma_cell_loop_closes(rest, start, st);
            let (_, n2, out) = cell_loop_spec::<Vec<u8>>(rest, start, st);
            assert(s[c + k + n2 - 1] == rest[n2 - 1]);
        }
    }
}

/// A list of cells parsed without error is written between its braces: into a
/// vector, what is written starts with `{` and ends with `}`, and the input is
/// consumed up to and including the `}` that closes the list.
pub proof fn law_cell_list_is_braced(s: Seq<u8>, out: Seq<u8>)
    requires
        cell_list_spec::<Vec<u8>>(s, out).0 is None,
    ensures
        ({
            let (_, n, out2) = cell_list_spec::<Vec<u8>>(s, out);
            &&& out2.len() > out.len() + 1
            &&& out2.subrange(0, out.len() as int) == out
            &&& out2[out.len() as int] == OPEN_BRACE
            &&& out2.last() == CLOSE_BRACE
            &&& 1 <= n <= s.len()
            &&& s[n - 1] == CLOSE_BRACE
        }),
{
    lemma_first_match(s, cell_open());
    lemma_first_match(s, seq![CLOSE_BRACE]);
    if brace_first(s) {
        let b = next_brace(s).unwrap();
        assert(s.subrange(b, b + 1)[0] == s[b]);
        if b == 0 {
            assert(s[0] == OPEN_BRACE);
            assert(false);
        }
        let out2 = out + s.take(b + 1);
        assert(out2.subrange(0, out.len() as int) =~= out);
        assert(out2[out.len() as int] == s[0]);
        assert(out2.last() == s[b]);
    } else {
        let c = next_cell(s).unwrap();
        if c == 0 {
            assert(s.subrange(0, 5)[0] == s[0]);
            assert(cell_open()[0] != OPEN_BRACE);
            assert(false);
        }
        let out1 = out + s.take(c);
        lemma_cell_loop_closes(s.skip(c), true, out1);
        let (_, n2, out2) = cell_loop_spec::<Vec<u8>>(s.skip(c), true, out1);
        assert(s[c + n2 - 1] == s.skip(c)[n2 - 1]);
        assert(out2[out.len() as int] == out2.subrange(0, out1.len() as int)[out.len() as int]);
        assert(out1[out.len() as int] == s[0]);
        assert(out2.subrange(0, out.len() as int) =~= out2.subrange(0, out1.len() as int).subrange(0, out.len() as int));
        assert(out1.subrange(0, out.len() as int) =~= out);
    }
}

/// No byte of `s` is a line feed.
pub open spec fn has_no_newline(s: Seq<u8>) -> bool {
    forall|j: int| 0 <= j < s.len() ==> #[trigger] s[j] != NEWLINE
}

/// Every line of `out` that is ended by a line feed has no trailing whitespace:
/// the text just before each line feed is not a whitespace character, unless
/// the line is empty.
pub open spec fn lines_have_no_trailing_white_space(out: Seq<u8>) -> bool {
    forall|i: int|
        0 <= i < out.len() && #[trigger] out[i] == NEWLINE ==> (white_space_suffix_len(out.take(i)) == 0
            || out[i - 1] == NEWLINE)
}

/// The state of a whitespace cleaner that has only ever passed on whole, cleaned lines.
pub open spec fn cleaner_state_clean(st: CleanerState) -> bool {
    &&& has_no_newline(st.0)
    &&& lines_have_no_trailing_white_space(st.1)
    &&& (st.1.len() == 0 || st.1.last() == NEWLINE)
}

/// Where a line feed is first found: at `p`, and nowhere before.
pub proof fn lemma_first_newline(b: Seq<u8>)
    ensures
        match first_match(b, seq![NEWLINE]) {
            Some(p) => 0 <= p < b.len() && b[p] == NEWLINE && has_no_newline(b.take(p)),
            None => has_no_newline(b),
        },
{
    lemma_first_match(b, seq![NEWLINE]);
    match first_match(b, seq![NEWLINE]) {
        Some(p) => {
            assert(b.subrange(p, p + 1)[0] == b[p]);
            assert forall|j: int| 0 <= j < p implies #[trigger] b.take(p)[j] != NEWLINE by {
                if b[j] == NEWLINE {
                    assert(b.subrange(j, j + 1) =~= seq![NEWLINE]);
                    assert(matches_at(b, seq![NEWLINE], j));
                }
            }
        },
        None => {
            assert forall|j: int| 0 <= j < b.len() implies #[trigger] b[j] != NEWLINE by {
                if b[j] == NEWLINE {
                    assert(b.subrange(j, j + 1) =~= seq![NEWLINE]);
                    assert(matches_at(b, seq![NEWLINE], j));
                }
            }
        },
    }
}

/// Trimming keeps a prefix that no longer ends with whitespace.
proof fn lemma_trim(s: Seq<u8>)
    ensures
        trim_trailing_white_space(s).len() <= s.len(),
        trim_trailing_white_space(s) == s.take(trim_trailing_white_space(s).len() as int),
        white_space_suffix_len(trim_trailing_white_space(s)) == 0,
        white_space_suffix_len(s) > 0 ==> trim_trailing_white_space(s).len() < s.len(),
    decreases s.len(),
{
    let k = white_space_suffix_len(s);
    if k == 0 || k > s.len() {
        assert(s.take(s.len() as int) =~= s);
    } else {
        let r = s.take(s.len() - k);
        lemma_trim(r);
        let tr = trim_trailing_white_space(r);
        assert(s.take(tr.len() as int) =~= r.take(tr.len() as int));
    }
}

/// Text without trailing whitespace, placed after a line feed, still has none.
proof fn lemma_suffix_after_newline(out: Seq<u8>, t: Seq<u8>)
    requires
        out.len() == 0 || out.last() == NEWLINE,
        t.len() > 0,
        white_space_suffix_len(t) == 0,
    ensures
        white_space_suffix_len(out + t) == 0,
{
    let u = out + t;
    let n = u.len() as int;
    let m = t.len() as int;
    assert(u[n - 1] == t[m - 1]);
    if m >= 2 {
        assert(u[n - 2] == t[m - 2]);
    }
    if m >= 3 {
        assert(u[n - 3] == t[m - 3]);
    }
    if m == 1 && n >= 2 {
        assert(u[n - 2] == NEWLINE);
    }
    if m == 2 && n >= 3 {
        assert(u[n - 3] == NEWLINE);
    }
}

/// The whitespace cleaner passes on only cleaned lines: starting from a state
/// whose output lines have no trailing whitespace (and whose pending line has
/// no line feed), every write, successful or not, leaves such a state.
pub proof fn law_cleaner_lines_have_no_trailing_white_space(st: CleanerState, b: Seq<u8>)
    requires
        cleaner_state_clean(st),
    ensures
        cleaner_state_clean(clean_write(st, b).0),
    decreases b.len(),
{
    if b.len() == 0 {
        return;
    }
    lemma_first_match(b, seq![NEWLINE]);
    lemma_first_newline(b);
    let n = line_len(b);
    let piece = b.take(n as int);
    if !vstd::utf8::valid_utf8(piece) {
        return;
    }
    let line = st.0 + piece;
    if line.last() == NEWLINE {
        let p = first_match(b, seq![NEWLINE]);
        if p is None {
            assert(piece =~= b);
            assert(line.last() == b[b.len() - 1]);
            assert(false);
        }
        let pp = p.unwrap();
        assert(n == pp + 1);
        let tr = trim_trailing_white_space(line);
        lemma_trim(line);
        assert(white_space_suffix_len(line) > 0);
        assert(has_no_newline(tr)) by {
            assert forall|j: int| 0 <= j < tr.len() implies #[trigger] tr[j] != NEWLINE by {
                assert(tr[j] == line[j]);
                if j < st.0.len() {
                    assert(line[j] == st.0[j]);
                } else {
                    assert(line[j] == b.take(pp)[j - st.0.len()]);
                }
            }
        }
        let out = st.1;
        let out2 = out + tr + seq![NEWLINE];
        assert(lines_have_no_trailing_white_space(out2)) by {
            assert forall|i: int| 0 <= i < out2.len() && #[trigger] out2[i] == NEWLINE implies (
            white_space_suffix_len(out2.take(i)) == 0 || out2[i - 1] == NEWLINE) by {
                if i < out.len() {
                    assert(out2.take(i) =~= out.take(i));
                    assert(out2[i] == out[i]);
                    if i > 0 {
                        assert(out2[i - 1] == out[i - 1]);
                    }
                } else if i < out.len() + tr.len() {
                    assert(out2[i] == tr[i - out.len()]);
                    assert(false);
                } else {
                    assert(out2.take(i) =~= out + tr);
                    if tr.len() > 0 {
                        lemma_suffix_after_newline(out, tr);
                    } else if out.len() > 0 {
                        assert(out2[i - 1] == out.last());
                    } else {
                        assert(out2.take(i) =~= Seq::<u8>::empty());
                    }
                }
            }
        }
        let st1: CleanerState = (Seq::<u8>::empty(), out2);
        assert(cleaner_state_clean(st1));
        law_cleaner_lines_have_no_trailing_white_space(st1, b.skip(n as int));
    } else {
        assert(has_no_newline(line)) by {
            assert forall|j: int| 0 <= j < line.len() implies #[trigger] line[j] != NEWLINE by {
                if j < st.0.len() {
                    assert(line[j] == st.0[j]);
                } else {
                    match first_match(b, seq![NEWLINE]) {
                        Some(pp) => {
                            if j - st.0.len() < pp {
                                assert(line[j] == b.take(pp)[j - st.0.len()]);
                            } else {
                                assert(j == line.len() - 1);
                            }
                        },
                        None => {
                            assert(line[j] == b[j - st.0.len()]);
                        },
                    }
                }
            }
        }
        let st1: CleanerState = (line, st.1);
        law_cleaner_lines_have_no_trailing_white_space(st1, b.skip(n as int));
    }
}

/// A line feed at `p` with none before it is the first one.
proof fn lemma_is_first_newline(x: Seq<u8>, p: int)
    requires
        0 <= p < x.len(),
        x[p] == NEWLINE,
        has_no_newline(x.take(p)),
    ensures
        first_match(x, seq![NEWLINE]) == Some(p),
{
    lemma_first_match(x, seq![NEWLINE]);
    assert(x.subrange(p, p + 1) =~= seq![NEWLINE]);
    assert(matches_at(x, seq![NEWLINE], p));
    match first_match(x, seq![NEWLINE]) {
        Some(q) => {
            if q < p {
                assert(x.subrange(q, q + 1)[0] == x[q]);
                assert(x.take(p)[q] == x[q]);
            }
        },
        None => {},
    }
}

/// Text with no line feed has none to be found.
proof fn lemma_no_newline_found(x: Seq<u8>)
    requires
        has_no_newline(x),
    ensures
        first_match(x, seq![NEWLINE]) is None,
{
    lemma_first_match(x, seq![NEWLINE]);
    if let Some(q) = first_match(x, seq![NEWLINE]) {
        assert(x.subrange(q, q + 1)[0] == x[q]);
    }
}

/// The whitespace cleaner does not depend on how its input is cut into writes:
/// if writing `a` and then `b` both succeed, writing `a + b` at once succeeds
/// too and leaves the cleaner in the same state.
pub proof fn law_cleaner_write_in_pieces(st: CleanerState, a: Seq<u8>, b: Seq<u8>)
    requires
        clean_write(st, a).1 is None,
        clean_write(clean_write(st, a).0, b).1 is None,
    ensures
        clean_write(st, a + b) == clean_write(clean_write(st, a).0, b),
    decreases a.len(),
{
    if a.len() == 0 {
        assert(a + b =~= b);
        return;
    }
    lemma_first_match(a, seq![NEWLINE]);
    lemma_first_newline(a);
    let ab = a + b;
    match first_match(a, seq![NEWLINE]) {
        Some(p) => {
            assert(ab[p] == a[p]);
            assert(ab.take(p) =~= a.take(p));
            lemma_is_first_newline(ab, p);
            let n = p + 1;
            assert(ab.take(n) =~= a.take(n));
            assert(ab.skip(n) =~= a.skip(n) + b);
            let piece = a.take(n);
            let line = st.0 + piece;
            let st1 = if line.last() == NEWLINE {
                (Seq::<u8>::empty(), st.1 + trim_trailing_white_space(line) + seq![NEWLINE])
            } else {
                (line, st.1)
            };
            assert(clean_write(st, a) == clean_write(st1, a.skip(n)));
            assert(clean_write(st, ab) == clean_write(st1, ab.skip(n)));
            law_cleaner_write_in_pieces(st1, a.skip(n), b);
        },
        None => {
            assert(a.take(a.len() as int) =~= a);
            let line = st.0 + a;
            assert(line.last() == a.last());
            assert(a.last() != NEWLINE);
            let st1: CleanerState = (line, st.1);
            assert(a.skip(a.len() as int) =~= Seq::<u8>::empty());
            assert(clean_write(st, a) == clean_write(st1, Seq::<u8>::empty()));
            assert(clean_write(st, a).0 == st1);
            if b.len() == 0 {
                assert(ab =~= a);
                return;
            }
            lemma_first_match(b, seq![NEWLINE]);
            lemma_first_newline(b);
            let nb = line_len(b);
            let pb = b.take(nb as int);
            assert(vstd::utf8::valid_utf8(a));
            assert(vstd::utf8::valid_utf8(pb));
            vstd::utf8::valid_utf8_concat(a, pb);
            match first_match(b, seq![NEWLINE]) {
                Some(q) => {
                    let p = a.len() + q;
                    assert(ab[p] == b[q]);
                    assert(has_no_newline(ab.take(p))) by {
                        assert forall|j: int| 0 <= j < p implies #[trigger] ab.take(p)[j] != NEWLINE by {
                            if j < a.len() {
                                assert(ab.take(p)[j] == a[j]);
                            } else {
                                assert(ab.take(p)[j] == b.take(q)[j - a.len()]);
                            }
                        }
                    }
                    lemma_is_first_newline(ab, p);
                    assert(ab.take(p + 1) =~= a + pb);
                    assert(ab.skip(p + 1) =~= b.skip(nb as int));
                    assert(st.0 + (a + pb) =~= st1.0 + pb);
                },
                None => {
                    assert(has_no_newline(ab)) by {
                        assert forall|j: int| 0 <= j < ab.len() implies #[trigger] ab[j] != NEWLINE by {
                            if j < a.len() {
                                assert(ab[j] == a[j]);
                            } else {
                                assert(ab[j] == b[j - a.len()]);
                            }
                        }
                    }
                    lemma_no_newline_found(ab);
                    assert(pb =~= b);
                    assert(ab.take(ab.len() as int) =~= a + pb);
                    assert(ab.skip(ab.len() as int) =~= b.skip(nb as int));
                    assert(st.0 + (a + pb) =~= st1.0 + pb);
                },
            }
        },
    }
}

/// The encoding of a character sequence ends with the encoding of its last character.
proof fn lemma_encode_utf8_last(cs: Seq<char>)
    requires
        cs.len() > 0,
    ensures
        encode_utf8(cs) == encode_utf8(cs.drop_last()) + encode_scalar(cs.last() as u32),
    decreases cs.len(),
{
    if cs.len() == 1 {
        assert(cs.drop_last() =~= Seq::<char>::empty());
        assert(cs.drop_first() =~= Seq::<char>::empty());
        assert(encode_utf8(Seq::<char>::empty()) == Seq::<u8>::empty());
        assert(encode_utf8(cs) =~= encode_scalar(cs[0] as u32));
        assert(encode_utf8(cs.drop_last()) + encode_scalar(cs.last() as u32) =~= encode_scalar(cs[0] as u32));
    } else {
        let rest = cs.drop_first();
        lemma_encode_utf8_last(rest);
        assert(rest.drop_last() =~= cs.drop_last().drop_first());
        assert(cs.drop_last()[0] == cs[0]);
        assert(rest.last() == cs.last());
        assert(encode_utf8(cs.drop_last()) == encode_scalar(cs[0] as u32) + encode_utf8(cs.drop_last().drop_first()));
        assert(encode_utf8(cs) =~= encode_utf8(cs.drop_last()) + encode_scalar(cs.last() as u32));
    }
}

/// The whitespace found at the end of some text followed by the encoding of a
/// character `c` is exactly that encoding if `c` is whitespace, and nothing otherwise.
proof fn lemma_white_space_suffix_of_char(x: Seq<u8>, c: char)
    ensures
        white_space_suffix_len(x + encode_scalar(c as u32)) == if is_white_space_char(c) {
            encode_scalar(c as u32).len()
        } else {
            0
        },
{
    let v = c as u32;
    char_is_scalar(c);
    let e = encode_scalar(v);
    let s = x + e;
    let n = s.len() as int;
    if has_width_1_encoding(v) {
        let b = leading_byte_width_1(v);
        assert(v <= 0x7f ==> leading_byte_width_1(v) as u32 == v) by (bit_vector);
        assert(s[n - 1] == b);
    } else if has_width_2_encoding(v) {
        let b0 = leading_byte_width_2(v);
        let b1 = last_continuation_byte(v);
        assert(0x80 <= v <= 0x7ff ==> {
            &&& 0xc0 <= leading_byte_width_2(v) <= 0xdf
            &&& 0x80 <= last_continuation_byte(v) <= 0xbf
            &&& ((leading_byte_width_2(v) == 0xc2 && (last_continuation_byte(v) == 0x85
                || last_continuation_byte(v) == 0xa0)) <==> (v == 0x85 || v == 0xa0))
        }) by (bit_vector);
        assert(s[n - 1] == b1);
        assert(s[n - 2] == b0);
    } else if has_width_3_encoding(v) {
        let b0 = leading_byte_width_3(v);
        let b1 = second_last_continuation_byte(v);
        let b2 = last_continuation_byte(v);
        assert(0x800 <= v <= 0xffff ==> {
            &&& 0xe0 <= leading_byte_width_3(v) <= 0xef
            &&& 0x80 <= second_last_continuation_byte(v) <= 0xbf
            &&& 0x80 <= last_continuation_byte(v) <= 0xbf
            &&& ((leading_byte_width_3(v) == 0xe1 && second_last_continuation_byte(v) == 0x9a
                && last_continuation_byte(v) == 0x80) || (leading_byte_width_3(v) == 0xe2
                && second_last_continuation_byte(v) == 0x80 && ((0x80 <= last_continuation_byte(v)
                && last_continuation_byte(v) <= 0x8a) || last_continuation_byte(v) == 0xa8
                || last_continuation_byte(v) == 0xa9 || last_continuation_byte(v) == 0xaf))
                || (leading_byte_width_3(v) == 0xe2 && second_last_continuation_byte(v) == 0x81
                && last_continuation_byte(v) == 0x9f) || (leading_byte_width_3(v) == 0xe3
                && second_last_continuation_byte(v) == 0x80 && last_continuation_byte(v) == 0x80))
                <==> (v == 0x1680 || (0x2000 <= v && v <= 0x200a) || v == 0x2028 || v == 0x2029
                || v == 0x202f || v == 0x205f || v == 0x3000)
        }) by (bit_vector);
        assert(s[n - 1] == b2);
        assert(s[n - 2] == b1);
        assert(s[n - 3] == b0);
    } else {
        assert(has_width_4_encoding(v));
        let b1 = third_last_continuation_byte(v);
        let b2 = second_last_continuation_byte(v);
        let b3 = last_continuation_byte(v);
        assert(0x10000 <= v <= 0x10ffff ==> {
            &&& 0x80 <= third_last_continuation_byte(v) <= 0xbf
            &&& 0x80 <= second_last_continuation_byte(v) <= 0xbf
            &&& 0x80 <= last_continuation_byte(v) <= 0xbf
        }) by (bit_vector);
        assert(s[n - 1] == b3);
        assert(s[n - 2] == b2);
        assert(s[n - 3] == b1);
    }
}

/// Trimming the encoding of some characters gives the encoding of the trimmed characters.
proof fn lemma_trim_encoding(cs: Seq<char>)
    ensures
        trim_trailing_white_space(encode_utf8(cs)) == encode_utf8(trim_end_chars(cs)),
    decreases cs.len(),
{
    if cs.len() == 0 {
        assert(white_space_suffix_len(encode_utf8(cs)) == 0);
    } else {
        lemma_encode_utf8_last(cs);
        let x = encode_utf8(cs.drop_last());
        let e = encode_scalar(cs.last() as u32);
        lemma_white_space_suffix_of_char(x, cs.last());
        if is_white_space_char(cs.last()) {
            let s = x + e;
            assert(s.take(s.len() - e.len()) =~= x);
            lemma_trim_encoding(cs.drop_last());
        }
    }
}

/// The whitespace cleaner trims lines as `str::trim_end` does: on valid UTF-8
/// text, removing trailing whitespace bytes leaves valid UTF-8 whose characters
/// are those of the text without its trailing whitespace characters.
pub proof fn law_trim_is_trim_end(s: Seq<u8>)
    requires
        valid_utf8(s),
    ensures
        valid_utf8(trim_trailing_white_space(s)),
        decode_utf8(trim_trailing_white_space(s)) == trim_end_chars(decode_utf8(s)),
{
    let cs = decode_utf8(s);
    decode_utf8_encode_utf8(s);
    lemma_trim_encoding(cs);
    encode_utf8_valid_utf8(trim_end_chars(cs));
    encode_utf8_decode_utf8(trim_end_chars(cs));
}

/// Once an argument boundary has been recorded, the scan stays inside the
/// function's brackets until it closes.
pub open spec fn scan_inside(st: FunctionState) -> bool {
    st.2.len() > 0 && !function_done(st) ==> st.0 >= 1
}

proof fn lemma_scan_ends_at_closing(s: Seq<u8>, i: nat, st: FunctionState)
    requires
        i <= s.len(),
        scan_inside(st),
        !function_done(st),
    ensures
        function_scan(s, i, st) matches Some((k, _)) ==> i < k <= s.len() && (s[k - 1]
            == CLOSE_BRACKET || s[k - 1] == CLOSE_BRACE),
    decreases s.len() - i,
{
    if i >= s.len() {
    } else {
        let c = s[i as int];
        let st2 = function_step(st, c, (i + 1) as usize);
        assert(function_scan(s, i, st) == function_scan(s, i + 1, st2));
        if function_done(st2) {
            assert(function_scan(s, i + 1, st2) == Some(((i + 1) as nat, st2)));
            assert(c == CLOSE_BRACKET || c == CLOSE_BRACE);
        } else {
            assert(scan_inside(st2));
            lemma_scan_ends_at_closing(s, i + 1, st2);
        }
    }
}

/// `load_function` loads only the function: the text it returns ends with the
/// bracket (or brace) that closes it.
pub proof fn law_function_ends_at_closing_bracket(s: Seq<u8>)
    ensures
        function_extent(s) matches Some((k, _)) ==> 1 <= k <= s.len() && (s[k - 1]
            == CLOSE_BRACKET || s[k - 1] == CLOSE_BRACE),
{
    lemma_scan_ends_at_closing(s, 0, function_start());
}

} // verus!

use vstd::prelude::*;
use vstd::utf8::{
    valid_utf8, valid_first_scalar, length_of_first_scalar, partial_valid_utf8,
    partial_valid_utf8_extend, partial_valid_partial_invalid_utf8,
};
use crate::error::ParseError;
use crate::sink::{ByteSink, outcome};
use crate::parser::patterns::NEWLINE;
use crate::parser::search::{find_byte, first_match, lemma_first_match};

verus! {

/// An ASCII byte that Rust's `char::is_whitespace` accepts: tab, line feed,
/// vertical tab, form feed, carriage return or space.
pub open spec fn is_ascii_white_space(b: u8) -> bool {
    (0x09 <= b && b <= 0x0d) || b == 0x20
}

/// A character that Rust's `char::is_whitespace` accepts: one with the Unicode
/// property White_Space.
pub open spec fn is_white_space_char(c: char) -> bool {
    let v = c as u32;
    ||| 0x09 <= v <= 0x0d
    ||| v == 0x20
    ||| v == 0x85
    ||| v == 0xa0
    ||| v == 0x1680
    ||| 0x2000 <= v <= 0x200a
    ||| v == 0x2028
    ||| v == 0x2029
    ||| v == 0x202f
    ||| v == 0x205f
    ||| v == 0x3000
}

/// The characters `cs` without their trailing whitespace, as `str::trim_end`
/// gives them.
pub open spec fn trim_end_chars(cs: Seq<char>) -> Seq<char>
    decreases cs.len(),
{
    if cs.len() > 0 && is_white_space_char(cs.last()) {
        trim_end_chars(cs.drop_last())
    } else {
        cs
    }
}

/// The length of the UTF-8 encoding of a whitespace character (in the sense of
/// Rust's `char::is_whitespace`, the Unicode property White_Space) at the end of
/// `s`, or 0 if `s` does not end with one.
///
/// Besides the ASCII whitespace, these are U+0085 and U+00A0 (two bytes) and
/// U+1680, U+2000 to U+200A, U+2028, U+2029, U+202F, U+205F and U+3000 (three
/// bytes).  In valid UTF-8 none of these byte patterns can be the tail of a
/// longer character, so they identify the last character.
pub open spec fn white_space_suffix_len(s: Seq<u8>) -> nat {
    let n = s.len() as int;
    if n >= 1 && is_ascii_white_space(s[n - 1]) {
        1
    } else if n >= 2 && s[n - 2] == 0xc2 && (s[n - 1] == 0x85 || s[n - 1] == 0xa0) {
        2
    } else if n >= 3 && (
        (s[n - 3] == 0xe1 && s[n - 2] == 0x9a && s[n - 1] == 0x80)
        || (s[n - 3] == 0xe2 && s[n - 2] == 0x80 && (
            (0x80 <= s[n - 1] && s[n - 1] <= 0x8a) || s[n - 1] == 0xa8 || s[n - 1] == 0xa9
            || s[n - 1] == 0xaf))
        || (s[n - 3] == 0xe2 && s[n - 2] == 0x81 && s[n - 1] == 0x9f)
        || (s[n - 3] == 0xe3 && s[n - 2] == 0x80 && s[n - 1] == 0x80)) {
        3
    } else {
        0
    }
}

/// `s` without its trailing whitespace characters, as `str::trim_end` gives it.
pub open spec fn trim_trailing_white_space(s: Seq<u8>) -> Seq<u8>
    decreases s.len(),
{
    let k = white_space_suffix_len(s);
    if k == 0 || k > s.len() {
        s
    } else {
        trim_trailing_white_space(s.take(s.len() - k))
    }
}

/// The length of the first line of `b`: up to and including the first line
/// feed, or all of `b` if it has none.
pub open spec fn line_len(b: Seq<u8>) -> nat {
    match first_match(b, seq![NEWLINE]) {
        Some(p) => (p + 1) as nat,
        None => b.len(),
    }
}

/// The state of a whitespace cleaner: the pending, incomplete line, and what has
/// been passed on to the underlying output.
pub type CleanerState = (Seq<u8>, Seq<u8>);

/// Writing `b` to a whitespace cleaner in state `st`: the new state and the
/// error, if any.
///
/// `b` is taken line by line.  Each piece must be valid UTF-8 on its own, or the
/// write stops there with `InvalidUtf8`.  A piece is added to the pending line;
/// once the pending line ends with a line feed, it is passed on with its trailing
/// whitespace (the line feed included) removed, followed by a single line feed.
pub open spec fn clean_write(st: CleanerState, b: Seq<u8>) -> (CleanerState, Option<ParseError>)
    decreases b.len(),
{
    if b.len() == 0 {
        (st, None)
    } else {
        proof {
            lemma_first_match(b, seq![NEWLINE]);
        }
        let n = line_len(b);
        let piece = b.take(n as int);
        if !valid_utf8(piece) {
            (st, Some(ParseError::InvalidUtf8))
        } else {
            let line = st.0 + piece;
            let st1 = if line.last() == NEWLINE {
                (Seq::<u8>::empty(), st.1 + trim_trailing_white_space(line) + seq![NEWLINE])
            } else {
                (line, st.1)
            };
            clean_write(st1, b.skip(n as int))
        }
    }
}

/// Flushing a whitespace cleaner in state `st`: the pending line is passed on
/// as it is, trailing whitespace included, and nothing is left pending.
pub open spec fn flushed(st: CleanerState) -> CleanerState {
    (Seq::empty(), st.1 + st.0)
}

/// The width of the UTF-8 encoding that starts at index `i` of `s`, if it is a
/// valid encoding of one character.
fn first_scalar_width(s: &[u8], i: usize) -> (r: Option<usize>)
    requires
        i < s@.len(),
    ensures
        match r {
            Some(w) => valid_first_scalar(s@.subrange(i as int, s@.len() as int))
                && w == length_of_first_scalar(s@.subrange(i as int, s@.len() as int))
                && i + w <= s@.len(),
            None => !valid_first_scalar(s@.subrange(i as int, s@.len() as int)),
        },
{
    let n = s.len();
    let ghost bytes = s@.subrange(i as int, n as int);
    let b0 = s[i];
    assert(bytes[0] == b0);
    if b0 <= 0x7f {
        return Some(1);
    }
    if 0xc0 <= b0 && b0 <= 0xdf {
        if n - i <= 1 {
            return None;
        }
        let b1 = s[i + 1];
        assert(bytes[1] == b1);
        if !(0x80 <= b1 && b1 <= 0xbf) {
            return None;
        }
        let cp: u32 = (((b0 & 0x1f) as u32) << 6u32) | ((b1 & 0x3f) as u32);
        if 0x80 <= cp && !(0xd800 <= cp && cp <= 0xdfff) {
            return Some(2);
        } else {
            return None;
        }
    }
    if 0xe0 <= b0 && b0 <= 0xef {
        if n - i <= 2 {
            return None;
        }
        let b1 = s[i + 1];
        let b2 = s[i + 2];
        assert(bytes[1] == b1);
        assert(bytes[2] == b2);
        if !(0x80 <= b1 && b1 <= 0xbf) || !(0x80 <= b2 && b2 <= 0xbf) {
            return None;
        }
        let cp: u32 = (((b0 & 0x0f) as u32) << 12u32) | (((b1 & 0x3f) as u32) << 6u32) | ((b2
            & 0x3f) as u32);
        if 0x800 <= cp && !(0xd800 <= cp && cp <= 0xdfff) {
            return Some(3);
        } else {
            return None;
        }
    }
    if 0xf0 <= b0 && b0 <= 0xf7 {
        if n - i <= 3 {
            return None;
        }
        let b1 = s[i + 1];
        let b2 = s[i + 2];
        let b3 = s[i + 3];
        assert(bytes[1] == b1);
        assert(bytes[2] == b2);
        assert(bytes[3] == b3);
        if !(0x80 <= b1 && b1 <= 0xbf) || !(0x80 <= b2 && b2 <= 0xbf) || !(0x80 <= b3 && b3
            <= 0xbf) {
            return None;
        }
        let cp: u32 = (((b0 & 0x07) as u32) << 18u32) | (((b1 & 0x3f) as u32) << 12u32) | (((b2
            & 0x3f) as u32) << 6u32) | ((b3 & 0x3f) as u32);
        if 0x10000 <= cp && cp <= 0x10ffff && !(0xd800 <= cp && cp <= 0xdfff) {
            return Some(4);
        } else {
            return None;
        }
    }
    None
}

/// Whether the bytes of `s` are valid UTF-8.
pub fn is_valid_utf8(s: &[u8]) -> (r: bool)
    ensures
        r == valid_utf8(s@),
{
    let n = s.len();
    let mut i: usize = 0;
    assert(s@.subrange(0, 0) =~= Seq::<u8>::empty());
    while i < n
        invariant
            n == s@.len(),
            i <= n,
            partial_valid_utf8(s@, i as int),
        decreases n - i,
    {
        match first_scalar_width(s, i) {
            Some(w) => {
                proof {
                    partial_valid_utf8_extend(s@, i as int);
                }
                i = i + w;
            },
            None => {
                proof {
                    partial_valid_partial_invalid_utf8(s@, i as int);
                }
                return false;
            },
        }
    }
    assert(s@.subrange(0, n as int) =~= s@);
    true
}

/// The length of the whitespace character encoded at the end of the first
/// `len` bytes of `s`, or 0.
fn white_space_suffix_len_exec(s: &[u8], len: usize) -> (r: usize)
    requires
        len <= s@.len(),
    ensures
        r == white_space_suffix_len(s@.take(len as int)),
{
    let ghost t = s@.take(len as int);
    if len >= 1 {
        let b = s[len - 1];
        assert(t[len - 1] == b);
        if (0x09 <= b && b <= 0x0d) || b == 0x20 {
            return 1;
        }
    }
    if len >= 2 {
        let a = s[len - 2];
        let b = s[len - 1];
        assert(t[len - 2] == a && t[len - 1] == b);
        if a == 0xc2 && (b == 0x85 || b == 0xa0) {
            return 2;
        }
    }
    if len >= 3 {
        let a = s[len - 3];
        let b = s[len - 2];
        let c = s[len - 1];
        assert(t[len - 3] == a && t[len - 2] == b && t[len - 1] == c);
        if (a == 0xe1 && b == 0x9a && c == 0x80) || (a == 0xe2 && b == 0x80 && ((0x80 <= c && c
            <= 0x8a) || c == 0xa8 || c == 0xa9 || c == 0xaf)) || (a == 0xe2 && b == 0x81 && c
            == 0x9f) || (a == 0xe3 && b == 0x80 && c == 0x80) {
            return 3;
        }
    }
    0
}

/// The length of `s` once its trailing whitespace is removed.
fn trimmed_len(s: &[u8]) -> (r: usize)
    ensures
        r <= s@.len(),
        s@.take(r as int) == trim_trailing_white_space(s@),
{
    let mut len = s.len();
    assert(s@.take(len as int) =~= s@);
    loop
        invariant
            len <= s@.len(),
            trim_trailing_white_space(s@.take(len as int)) == trim_trailing_white_space(s@),
        decreases len,
    {
        let k = white_space_suffix_len_exec(s, len);
        if k == 0 {
            return len;
        }
        assert(s@.take(len as int).take(len - k) =~= s@.take(len - k));
        len = len - k;
    }
}

/// An intermediate output that removes the trailing whitespace of each line it
/// is given before passing the line on to the underlying output.
///
/// The content is split into lines, so it must be valid UTF-8.
pub struct WhitespaceCleaner {
    line_buffer: Vec<u8>,
    output: Vec<u8>,
}

impl View for WhitespaceCleaner {
    type V = CleanerState;

    /// The pending line and what has been passed on.
    closed spec fn view(&self) -> CleanerState {
        (self.line_buffer@, self.output@)
    }
}

impl WhitespaceCleaner {
    /// Creates a whitespace cleaner that passes lines on to `output`.
    pub fn new(output: Vec<u8>) -> (r: Self)
        ensures
            r@ == (Seq::<u8>::empty(), output@),
    {
        WhitespaceCleaner { line_buffer: Vec::new(), output }
    }

    /// What has been passed on to the underlying output so far.
    pub fn output(&self) -> (r: &Vec<u8>)
        ensures
            r@ == self@.1,
    {
        &self.output
    }

    /// Gives back the underlying output; a pending incomplete line is lost.
    pub fn into_inner(self) -> (r: Vec<u8>)
        ensures
            r@ == self@.1,
    {
        self.output
    }

    /// Takes `buf` line by line; on success all of it is taken and its length returned.
    pub fn write(&mut self, buf: &[u8]) -> (r: Result<usize, ParseError>)
        ensures
            final(self)@ == clean_write(old(self)@, buf@).0,
            r == match clean_write(old(self)@, buf@).1 {
                None => Ok::<usize, ParseError>(buf@.len() as usize),
                Some(e) => Err(e),
            },
    {
        let n = buf.len();
        let mut pos: usize = 0;
        assert(buf@.skip(0) =~= buf@);
        while pos < n
            invariant
                n == buf@.len(),
                pos <= n,
                clean_write(self@, buf@.skip(pos as int)) == clean_write(old(self)@, buf@),
            decreases n - pos,
        {
            let rest = vstd::slice::slice_subrange(buf, pos, n);
            assert(rest@ == buf@.skip(pos as int));
            proof {
                lemma_first_match(rest@, seq![NEWLINE]);
            }
            let piece_len = match find_byte(rest, NEWLINE) {
                Some(p) => p + 1,
                None => rest.len(),
            };
            let piece = vstd::slice::slice_subrange(rest, 0, piece_len);
            if !is_valid_utf8(piece) {
                return Err(ParseError::InvalidUtf8);
            }
            let ghost st = self@;
            let ghost b = buf@.skip(pos as int);
            assert(piece_len == line_len(b));
            assert(piece@ == b.take(piece_len as int));
            let _ = self.line_buffer.write_all(piece);
            let ghost line = self.line_buffer@;
            assert(line == st.0 + piece@);
            let last = self.line_buffer.len() - 1;
            if self.line_buffer[last] == NEWLINE {
                let keep = trimmed_len(self.line_buffer.as_slice());
                let trimmed = vstd::slice::slice_subrange(self.line_buffer.as_slice(), 0, keep);
                let _ = self.output.write_all(trimmed);
                self.output.push(NEWLINE);
                self.line_buffer.clear();
                assert(self@.1 =~= st.1 + trim_trailing_white_space(line) + seq![NEWLINE]);
                assert(self@.0 =~= Seq::<u8>::empty());
            }
            assert(buf@.skip(pos as int).skip(piece_len as int) =~= buf@.skip(pos + piece_len));
            assert(clean_write(st, b) == clean_write(self@, b.skip(piece_len as int)));
            pos = pos + piece_len;
        }
        assert(buf@.skip(n as int) =~= Seq::<u8>::empty());
        Ok(n)
    }

    /// Passes the pending line on to the underlying output as it is, without
    /// removing its trailing whitespace.
    pub fn flush(&mut self) -> (r: Result<(), ParseError>)
        ensures
            r == Ok::<(), ParseError>(()),
            final(self)@ == flushed(old(self)@),
    {
        if self.line_buffer.len() == 0 {
            assert(old(self)@.1 + old(self)@.0 =~= old(self)@.1);
            Ok(())
        } else {
            let _ = self.output.write_all(self.line_buffer.as_slice());
            self.line_buffer.clear();
            Ok(())
        }
    }
}

impl ByteSink for WhitespaceCleaner {
    /// Writing to a whitespace cleaner goes line by line, as `clean_write` says.
    open spec fn accept(state: CleanerState, bytes: Seq<u8>) -> (CleanerState, Option<ParseError>) {
        clean_write(state, bytes)
    }

    fn write_all(&mut self, bytes: &[u8]) -> (r: Result<(), ParseError>) {
        match self.write(bytes) {
            Ok(_) => Ok(()),
            Err(e) => Err(e),
        }
    }
}

} // verus!

use vstd::prelude::*;
use crate::error::ParseError;
use crate::sink::write_chunks;
use crate::parser::patterns::{CLOSE_PAREN, NEWLINE, content_type_marker, beginning_marker};
use crate::parser::search::{first_match, matches_at, occurs_in, lemma_first_match};
use crate::parser::header::{content_type_spec, beginning_notebook_spec, until_len};

verus! {

/// The first `)` of `t`: up to and including it, or all of `t` if it has none.
proof fn lemma_until_paren(t: Seq<u8>)
    ensures
        match first_match(t, seq![CLOSE_PAREN]) {
            Some(q) => 0 <= q < t.len() && until_len(t, CLOSE_PAREN) == q + 1 && t[q] == CLOSE_PAREN
                && forall|j: int| 0 <= j < q ==> #[trigger] t[j] != CLOSE_PAREN,
            None => until_len(t, CLOSE_PAREN) == t.len() && forall|j: int| 0 <= j < t.len() ==> #[trigger] t[j]
                != CLOSE_PAREN,
        },
{
    lemma_first_match(t, seq![CLOSE_PAREN]);
    match first_match(t, seq![CLOSE_PAREN]) {
        Some(p) => {
            assert(t.subrange(p, p + 1)[0] == t[p]);
            assert forall|j: int| 0 <= j < p implies #[trigger] t[j] != CLOSE_PAREN by {
                if t[j] == CLOSE_PAREN {
                    assert(t.subrange(j, j + 1) =~= seq![CLOSE_PAREN]);
                    assert(matches_at(t, seq![CLOSE_PAREN], j));
                }
            }
        },
        None => {
            assert forall|j: int| 0 <= j < t.len() implies #[trigger] t[j] != CLOSE_PAREN by {
                if t[j] == CLOSE_PAREN {
                    assert(t.subrange(j, j + 1) =~= seq![CLOSE_PAREN]);
                    assert(matches_at(t, seq![CLOSE_PAREN], j));
                }
            }
        },
    }
}

/// The content-type line is copied from its comment to its first `)`: parsing
/// the content type into a vector succeeds exactly when `s` holds
/// `(* Content-type: `; then it consumes up to the first `)` after the first
/// such comment (or all of `s` if there is none), and writes the text from the
/// comment on, followed by a line feed.
pub proof fn law_content_type_line_is_copied(s: Seq<u8>, out: Seq<u8>)
    ensures
        ({
            let (e, n, w) = content_type_spec::<Vec<u8>>(s, out);
            &&& (e is None <==> occurs_in(s, content_type_marker()))
            &&& e is None ==> {
                let p = first_match(s, content_type_marker()).unwrap();
                let line = s.subrange(p, n as int);
                &&& p + content_type_marker().len() <= n <= s.len()
                &&& line.take(content_type_marker().len() as int) == content_type_marker()
                &&& w == out + line + seq![NEWLINE]
                &&& forall|j: int| content_type_marker().len() <= j < line.len() - 1 ==> #[trigger] line[j]
                    != CLOSE_PAREN
                &&& (line.last() == CLOSE_PAREN || n == s.len())
                &&& !occurs_in(s.take(p + content_type_marker().len() - 1), content_type_marker())
            }
        }),
{
    lemma_first_match(s, content_type_marker());
    reveal_with_fuel(write_chunks, 3);
    if let Some(p) = first_match(s, content_type_marker()) {
        let m = content_type_marker();
        let t = s.skip(p);
        let n = until_len(t, CLOSE_PAREN);
        lemma_until_paren(t);
        let line = s.subrange(p, p + n);
        assert(line =~= t.take(n as int));
        // The comment itself holds no `)`, so the first `)` comes after it.
        assert(m =~= seq![0x28u8, 0x2a, 0x20, 0x43, 0x6f, 0x6e, 0x74, 0x65, 0x6e, 0x74, 0x2d, 0x74, 0x79, 0x70, 0x65, 0x3a, 0x20]);
        assert(t.subrange(0, m.len() as int) =~= s.subrange(p, p + m.len()));
        assert forall|j: int| 0 <= j < m.len() implies #[trigger] t[j] != CLOSE_PAREN by {
            assert(t[j] == s.subrange(p, p + m.len())[j]);
        }
        if let Some(q) = first_match(t, seq![CLOSE_PAREN]) {
            if q < m.len() {
                assert(t[q] != CLOSE_PAREN);
            }
        }
        assert(n >= m.len());
        assert(line.take(m.len() as int) =~= s.subrange(p, p + m.len()));
        assert forall|j: int| m.len() <= j < line.len() - 1 implies #[trigger] line[j] != CLOSE_PAREN by {
            assert(line[j] == t[j]);
        }
        if let Some(q) = first_match(t, seq![CLOSE_PAREN]) {
            assert(line.last() == t[q]);
        }
        assert forall|j: int| !#[trigger] matches_at(s.take(p + m.len() - 1), m, j) by {
            if matches_at(s.take(p + m.len() - 1), m, j) {
                assert(s.subrange(j, j + m.len()) =~= s.take(p + m.len() - 1).subrange(j, j + m.len()));
                assert(matches_at(s, m, j));
            }
        }
        assert(seq![t.take(n as int), seq![NEWLINE]].drop_first() =~= seq![seq![NEWLINE]]);
        assert(out + t.take(n as int) + seq![NEWLINE] =~= out + line + seq![NEWLINE]);
    }
}

/// The beginning-of-notebook comment is written on a line of its own: parsing
/// it into a vector succeeds exactly when `s` holds
/// `(* Beginning of Notebook Content *)`; then it consumes up to the end of the
/// first such comment and writes a line feed, the comment and a line feed.
pub proof fn law_beginning_line_is_written(s: Seq<u8>, out: Seq<u8>)
    ensures
        ({
            let (e, n, w) = beginning_notebook_spec::<Vec<u8>>(s, out);
            let m = beginning_marker();
            &&& (e is None <==> occurs_in(s, m))
            &&& e is None ==> {
                &&& m.len() <= n <= s.len()
                &&& s.subrange(n - m.len(), n as int) == m
                &&& !occurs_in(s.take(n - 1), m)
                &&& w == out + seq![NEWLINE] + m + seq![NEWLINE]
            }
        }),
{
    let m = beginning_marker();
    lemma_first_match(s, m);
    reveal_with_fuel(write_chunks, 4);
    if let Some(p) = first_match(s, m) {
        let t = s.skip(p);
        let n = until_len(t, CLOSE_PAREN);
        lemma_until_paren(t);
        assert(m =~= seq![0x28u8, 0x2a, 0x20, 0x42, 0x65, 0x67, 0x69, 0x6e, 0x6e, 0x69, 0x6e, 0x67, 0x20, 0x6f, 0x66, 0x20, 0x4e, 0x6f, 0x74, 0x65, 0x62, 0x6f, 0x6f, 0x6b, 0x20, 0x43, 0x6f, 0x6e, 0x74, 0x65, 0x6e, 0x74, 0x20, 0x2a, 0x29]);
        let l = m.len() as int;
        assert(t.take(l) =~= s.subrange(p, p + l));
        assert forall|j: int| 0 <= j < l - 1 implies #[trigger] t[j] != CLOSE_PAREN by {
            assert(t[j] == t.take(l)[j]);
        }
        assert(t[l - 1] == t.take(l)[l - 1]);
        assert(t[l - 1] == CLOSE_PAREN);
        assert(n == l) by {
            if let Some(q) = first_match(t, seq![CLOSE_PAREN]) {
                if q < l - 1 {
                    assert(t[q] != CLOSE_PAREN);
                } else if q > l - 1 {
                    assert(t[l - 1] != CLOSE_PAREN);
                }
            } else {
                assert(t[l - 1] != CLOSE_PAREN);
            }
        }
        assert(t.take(n as int) =~= m);
        assert(s.subrange(p + n - l, p + n) =~= m);
        assert forall|j: int| !#[trigger] matches_at(s.take(p + n - 1), m, j) by {
            if matches_at(s.take(p + n - 1), m, j) {
                assert(s.subrange(j, j + l) =~= s.take(p + n - 1).subrange(j, j + l));
                assert(matches_at(s, m, j));
            }
        }
        assert(out + seq![NEWLINE] + t.take(n as int) + seq![NEWLINE] =~= out + seq![NEWLINE] + m + seq![NEWLINE]);
    }
}

} // verus!

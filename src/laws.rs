//! Laws of the lexical layer that relate several readers, or a reader and the
//! printed form of the values it produces.
use vstd::prelude::*;
use crate::lexical::{
    boundary_stop, keyword_of_token, keyword_outcome, lemma_last_slash_unique, lemma_span_len,
    lemma_span_len_unique, malformed_token, parse_token, parsed_parts_nonempty, pattern_outcome, peek_outcome,
    quote_stop, read_n, read_outcome, scan_outcome, span_len, symbol_of_token, symbol_outcome, token_boundary,
    token_len, unread_all, unread_outcome,
};
use crate::reader::ReaderError;
use crate::types::QualifiedName;

verus! {

/// Pushing `c` back and reading gives `c`, and leaves the stream as it was.
pub proof fn law_unread_then_read(s: Seq<char>, c: char)
    ensures
        read_outcome(unread_outcome(s, c)) == (Ok::<char, ReaderError>(c), s),
{
    assert((seq![c] + s).drop_first() =~= s);
}

/// Pushing back the characters `cs` one by one and then reading as many
/// returns them in the reverse order, and leaves the stream as it was.
pub proof fn law_pushback_reverses(s: Seq<char>, cs: Seq<char>)
    ensures
        read_n(unread_all(s, cs), cs.len()) == (cs.reverse(), s),
{
    lemma_unread_all_read_n(s, cs, 0);
    assert(cs.reverse() + Seq::<char>::empty() =~= cs.reverse());
}

proof fn lemma_unread_all_read_n(s: Seq<char>, cs: Seq<char>, k: nat)
    ensures
        read_n(unread_all(s, cs), cs.len() + k) == (
            cs.reverse() + read_n(s, k).0,
            read_n(s, k).1,
        ),
    decreases cs.len(),
{
    if cs.len() == 0 {
        assert(Seq::<char>::empty().reverse() + read_n(s, k).0 =~= read_n(s, k).0);
    } else {
        let c = cs[0];
        let rest = cs.drop_first();
        let s1 = unread_outcome(s, c);
        lemma_unread_all_read_n(s1, rest, k + 1);
        law_unread_then_read(s, c);
        assert(rest.len() + (k + 1) == cs.len() + k);
        assert(read_n(s1, k + 1) == (seq![c] + read_n(s, k).0, read_n(s, k).1));
        assert(cs.reverse() =~= rest.reverse() + seq![c]);
        assert(rest.reverse() + (seq![c] + read_n(s, k).0) =~= cs.reverse() + read_n(s, k).0);
    }
}

/// A scan that stops at a character leaves that character in the stream: the
/// next peek and the next read both return it, and nothing is lost.
pub proof fn law_scan_keeps_terminator(s: Seq<char>, stop: spec_fn(char) -> bool, eof_err: bool)
    requires
        exists|i: int| 0 <= i < s.len() && stop(#[trigger] s[i]),
    ensures
        scan_outcome(s, stop, eof_err).0 is Ok,
        ({
            let t = scan_outcome(s, stop, eof_err).0->Ok_0;
            let rest = scan_outcome(s, stop, eof_err).1;
            &&& s == t + rest
            &&& rest.len() > 0
            &&& stop(rest[0])
            &&& peek_outcome(rest) == Ok::<char, ReaderError>(rest[0])
            &&& read_outcome(rest).0 == Ok::<char, ReaderError>(rest[0])
        }),
{
    lemma_span_len(s, stop);
    let n = span_len(s, stop) as int;
    assert(n < s.len());
    assert(s =~= s.take(n) + s.skip(n));
}

/// A scan over input with no terminating character fails with `EndOfInput`
/// when asked to, and otherwise returns the whole input and drains the stream.
pub proof fn law_scan_at_end_of_input(s: Seq<char>, stop: spec_fn(char) -> bool)
    requires
        forall|i: int| 0 <= i < s.len() ==> !stop(#[trigger] s[i]),
    ensures
        scan_outcome(s, stop, true) == (
            Err::<Seq<char>, ReaderError>(ReaderError::EndOfInput),
            Seq::<char>::empty(),
        ),
        scan_outcome(s, stop, false) == (Ok::<Seq<char>, ReaderError>(s), Seq::<char>::empty()),
{
    lemma_span_len_unique(s, stop, s.len() as int);
}

/// Every symbol and keyword read from a token has a non-empty name, and a
/// non-empty namespace when it has one.
pub proof fn law_parsed_parts_nonempty(t: Seq<char>)
    ensures
        symbol_of_token(t) is Ok ==> parsed_parts_nonempty(symbol_of_token(t)->Ok_0),
        keyword_of_token(t) is Ok ==> parsed_parts_nonempty(keyword_of_token(t)->Ok_0),
{
}

/// Text without any character that ends a token.
pub open spec fn plain_text(t: Seq<char>) -> bool {
    forall|i: int| 0 <= i < t.len() ==> !token_boundary(#[trigger] t[i])
}

/// Text without a `/`.
pub open spec fn no_slash(t: Seq<char>) -> bool {
    forall|i: int| 0 <= i < t.len() ==> #[trigger] t[i] != '/'
}

/// Whether `t` starts with `::`.
pub open spec fn double_colon(t: Seq<char>) -> bool {
    t.len() >= 2 && t[0] == ':' && t[1] == ':'
}

/// The printed form of a symbol: `name`, or `ns/name`.
pub open spec fn symbol_text(q: QualifiedName) -> Seq<char> {
    match q.0 {
        None => q.1,
        Some(ns) => ns + seq!['/'] + q.1,
    }
}

/// The printed form of a keyword: `:name`, or `:ns/name`.
pub open spec fn keyword_text(q: QualifiedName) -> Seq<char> {
    seq![':'] + symbol_text(q)
}

/// The printed form of a pattern: `#"body"`.
pub open spec fn pattern_text(body: Seq<char>) -> Seq<char> {
    seq!['#', '"'] + body + seq!['"']
}

/// Parts of a qualified name that print as a token which reads back as them:
/// a name without `/` that does not end with `:`, and a namespace, if any,
/// that does not start with `::`; both non-empty and free of token-ending
/// characters.
pub open spec fn readable_parts(q: QualifiedName) -> bool {
    &&& q.1.len() > 0
    &&& plain_text(q.1)
    &&& no_slash(q.1)
    &&& q.1.last() != ':'
    &&& match q.0 {
        None => !double_colon(q.1),
        Some(ns) => ns.len() > 0 && plain_text(ns) && !double_colon(ns),
    }
}

/// A symbol that reads back from its printed form.
pub open spec fn readable_symbol(q: QualifiedName) -> bool {
    q == (None::<Seq<char>>, seq!['/']) || readable_parts(q)
}

/// A keyword that reads back from its printed form: its token may not start
/// with a second colon.
pub open spec fn readable_keyword(q: QualifiedName) -> bool {
    readable_parts(q) && symbol_text(q)[0] != ':'
}

/// What may follow a printed token: the end of the input or a character that
/// ends the token.
pub open spec fn token_end(tail: Seq<char>) -> bool {
    tail.len() == 0 || token_boundary(tail[0])
}

proof fn lemma_readable_token(q: QualifiedName, tail: Seq<char>)
    requires
        readable_parts(q),
        token_end(tail),
    ensures
        ({
            let t = symbol_text(q);
            &&& t.len() > 0
            &&& t != seq!['/']
            &&& plain_text(t)
            &&& token_len(t.drop_first() + tail) == t.len() - 1
            &&& parse_token(t) == Ok::<QualifiedName, ReaderError>(q)
        }),
{
    let t = symbol_text(q);
    let name = q.1;
    match q.0 {
        None => {
            assert(t == name);
            lemma_last_slash_unique(t, -1);
        },
        Some(ns) => {
            let k = ns.len() as int;
            assert(t[k] == '/');
            assert(t.len() == k + 1 + name.len());
            assert forall|j: int| k < j < t.len() implies #[trigger] t[j] != '/' by {
                assert(t[j] == name[j - k - 1]);
            }
            lemma_last_slash_unique(t, k);
            assert(t.take(k) =~= ns);
            assert(t.skip(k + 1) =~= name);
            assert(t.last() == name.last());
            if ns.len() >= 2 {
                assert(t[0] == ns[0] && t[1] == ns[1]);
            } else {
                assert(t[1] == '/');
            }
            assert forall|i: int| 0 <= i < t.len() implies !token_boundary(#[trigger] t[i]) by {
                if i < k {
                    assert(t[i] == ns[i]);
                } else if i > k {
                    assert(t[i] == name[i - k - 1]);
                }
            }
        },
    }
    assert(!malformed_token(t));
    let u = t.drop_first() + tail;
    assert forall|i: int| 0 <= i < t.len() - 1 implies !boundary_stop()(#[trigger] u[i]) by {
        assert(u[i] == t[i + 1]);
    }
    if tail.len() > 0 {
        assert(u[t.len() - 1] == tail[0]);
    }
    lemma_span_len_unique(u, boundary_stop(), t.len() - 1);
}

/// A readable symbol, printed and followed by the end of the input or a
/// token-ending character, reads back as the same symbol, and the reader
/// stops where the printed text ends.
pub proof fn law_symbol_round_trip(q: QualifiedName, tail: Seq<char>)
    requires
        readable_symbol(q),
        token_end(tail),
    ensures
        symbol_outcome(symbol_text(q)[0], symbol_text(q).drop_first() + tail) == (
            Ok::<QualifiedName, ReaderError>(q),
            tail,
        ),
{
    let t = symbol_text(q);
    let u = t.drop_first() + tail;
    if readable_parts(q) {
        lemma_readable_token(q, tail);
    } else {
        assert(t == seq!['/']);
        assert(u =~= tail);
        lemma_span_len_unique(u, boundary_stop(), 0);
    }
    let n = (t.len() - 1) as int;
    assert(seq![t[0]] + u.take(n) =~= t);
    assert(u.skip(n) =~= tail);
}

/// A readable keyword, printed and followed by the end of the input or a
/// token-ending character, reads back as the same keyword once its leading
/// `:` is consumed, and the reader stops where the printed text ends.
pub proof fn law_keyword_round_trip(q: QualifiedName, tail: Seq<char>)
    requires
        readable_keyword(q),
        token_end(tail),
    ensures
        keyword_outcome(keyword_text(q).drop_first() + tail) == (
            Ok::<QualifiedName, ReaderError>(q),
            tail,
        ),
{
    let t = symbol_text(q);
    lemma_readable_token(q, tail);
    let s = keyword_text(q).drop_first() + tail;
    assert(keyword_text(q).drop_first() =~= t);
    assert(s[0] == t[0]);
    assert(!token_boundary(t[0]));
    let u = s.drop_first();
    assert(u =~= t.drop_first() + tail);
    let n = (t.len() - 1) as int;
    assert(seq![s[0]] + u.take(n) =~= t);
    assert(u.skip(n) =~= tail);
}

/// A pattern whose body holds no double quote, printed and followed by any
/// text, reads back as the same body once `#"` is consumed; the closing quote
/// is left in the stream.
pub proof fn law_pattern_round_trip(body: Seq<char>, tail: Seq<char>)
    requires
        forall|i: int| 0 <= i < body.len() ==> #[trigger] body[i] != '"',
    ensures
        pattern_outcome(pattern_text(body).skip(2) + tail) == (
            Ok::<Seq<char>, ReaderError>(body),
            seq!['"'] + tail,
        ),
{
    let s = pattern_text(body).skip(2) + tail;
    assert(pattern_text(body).skip(2) =~= body + seq!['"']);
    assert(s =~= body + (seq!['"'] + tail));
    assert forall|i: int| 0 <= i < body.len() implies !quote_stop()(#[trigger] s[i]) by {
        assert(s[i] == body[i]);
    }
    assert(s[body.len() as int] == '"');
    lemma_span_len_unique(s, quote_stop(), body.len() as int);
    assert(s.take(body.len() as int) =~= body);
    assert(s.skip(body.len() as int) =~= seq!['"'] + tail);
}

} // verus!

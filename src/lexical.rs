//! The mathematical model of the lexical layer: character classes, the
//! outcome of each reader on a given character sequence, and the facts about
//! them that the executable readers rely on.
use vstd::prelude::*;
use crate::reader::ReaderError;
use crate::types::QualifiedName;

verus! {

/// The three whitespace characters that separate tokens.
pub open spec fn whitespace(c: char) -> bool {
    c == ' ' || c == '\n' || c == '\r'
}

/// Reserved syntax characters that end a token even without whitespace.
pub open spec fn macro_terminating(c: char) -> bool {
    c == '"' || c == ';' || c == '@' || c == '^' || c == '`' || c == '~' || c == '\\' || c == '('
        || c == ')' || c == '[' || c == ']' || c == '{' || c == '}'
}

/// A character that ends a token.
pub open spec fn token_boundary(c: char) -> bool {
    macro_terminating(c) || whitespace(c)
}

/// Number of leading characters of `s` that come before the first character
/// on which `stop` holds (all of `s` when there is none).
pub open spec fn span_len(s: Seq<char>, stop: spec_fn(char) -> bool) -> nat
    decreases s.len(),
{
    if s.len() == 0 {
        0
    } else if stop(s[0]) {
        0
    } else {
        1 + span_len(s.drop_first(), stop)
    }
}

/// Whether the executable test `p` computes `stop`.
pub open spec fn decides<F: Fn(char) -> bool>(p: F, stop: spec_fn(char) -> bool) -> bool {
    forall|c: char, b: bool| call_ensures(p, (c,), b) ==> b == stop(c)
}

/// The test that ends a token.
pub open spec fn boundary_stop() -> spec_fn(char) -> bool {
    |c: char| token_boundary(c)
}

/// The test that ends the body of a pattern literal.
pub open spec fn quote_stop() -> spec_fn(char) -> bool {
    |c: char| c == '"'
}

/// Length of the token run at the start of `s`.
pub open spec fn token_len(s: Seq<char>) -> nat {
    span_len(s, boundary_stop())
}

/// Length of the text at the start of `s` before the first double quote.
pub open spec fn quote_len(s: Seq<char>) -> nat {
    span_len(s, quote_stop())
}

/// The characters before `span_len` fail `stop`, and the one at it, if any,
/// passes.
pub proof fn lemma_span_len(s: Seq<char>, stop: spec_fn(char) -> bool)
    ensures
        span_len(s, stop) <= s.len(),
        forall|i: int| 0 <= i < span_len(s, stop) ==> !stop(#[trigger] s[i]),
        span_len(s, stop) < s.len() ==> stop(s[span_len(s, stop) as int]),
    decreases s.len(),
{
    if s.len() > 0 && !stop(s[0]) {
        lemma_span_len(s.drop_first(), stop);
        assert forall|i: int| 0 <= i < span_len(s, stop) implies !stop(#[trigger] s[i]) by {
            if i > 0 {
                assert(s[i] == s.drop_first()[i - 1]);
            }
        }
    }
}

/// `span_len` is the only length with its two defining properties.
pub proof fn lemma_span_len_unique(s: Seq<char>, stop: spec_fn(char) -> bool, k: int)
    requires
        0 <= k <= s.len(),
        forall|i: int| 0 <= i < k ==> !stop(#[trigger] s[i]),
        k < s.len() ==> stop(s[k]),
    ensures
        span_len(s, stop) == k,
    decreases s.len(),
{
    if k > 0 {
        assert(!stop(s[0]));
        assert forall|i: int| 0 <= i < k - 1 implies !stop(#[trigger] s.drop_first()[i]) by {
            assert(s.drop_first()[i] == s[i + 1]);
        }
        lemma_span_len_unique(s.drop_first(), stop, k - 1);
    }
}

/// What a peek at a stream holding `s` returns.
pub open spec fn peek_outcome(s: Seq<char>) -> Result<char, ReaderError> {
    if s.len() > 0 {
        Ok(s[0])
    } else {
        Err(ReaderError::EndOfInput)
    }
}

/// What a read from a stream holding `s` returns, and what the stream holds after.
pub open spec fn read_outcome(s: Seq<char>) -> (Result<char, ReaderError>, Seq<char>) {
    if s.len() > 0 {
        (Ok(s[0]), s.drop_first())
    } else {
        (Err(ReaderError::EndOfInput), s)
    }
}

/// What a stream holding `s` holds after `c` is pushed back.
pub open spec fn unread_outcome(s: Seq<char>, c: char) -> Seq<char> {
    seq![c] + s
}

/// A stream holding `s` after each character of `cs` is pushed back, first to last.
pub open spec fn unread_all(s: Seq<char>, cs: Seq<char>) -> Seq<char>
    decreases cs.len(),
{
    if cs.len() == 0 {
        s
    } else {
        unread_all(unread_outcome(s, cs[0]), cs.drop_first())
    }
}

/// The characters that `n` reads from a stream holding `s` return (up to the
/// first failure), and what the stream holds after.
pub open spec fn read_n(s: Seq<char>, n: nat) -> (Seq<char>, Seq<char>)
    decreases n,
{
    if n == 0 {
        (Seq::empty(), s)
    } else {
        match read_outcome(s).0 {
            Ok(c) => {
                let rest = read_n(read_outcome(s).1, (n - 1) as nat);
                (seq![c] + rest.0, rest.1)
            },
            Err(_) => (Seq::empty(), read_outcome(s).1),
        }
    }
}

/// Outcome of scanning a stream holding `s` up to the first character on
/// which `stop` holds: the text before it, and what the stream holds after.
/// Without such a character the scan fails when `eof_err` is set.
pub open spec fn scan_outcome(s: Seq<char>, stop: spec_fn(char) -> bool, eof_err: bool) -> (
    Result<Seq<char>, ReaderError>,
    Seq<char>,
) {
    let n = span_len(s, stop);
    if n < s.len() {
        (Ok(s.take(n as int)), s.skip(n as int))
    } else if eof_err {
        (Err(ReaderError::EndOfInput), Seq::empty())
    } else {
        (Ok(s), Seq::empty())
    }
}

/// The character that an escape sequence `\c` stands for in a string literal.
pub open spec fn escape_of(c: char) -> Option<char> {
    if c == 't' {
        Some('\t')
    } else if c == 'r' {
        Some('\r')
    } else if c == 'n' {
        Some('\n')
    } else if c == '\\' {
        Some('\\')
    } else if c == '"' {
        Some('"')
    } else {
        None
    }
}

/// Puts `pre` in front of a successful text, and leaves the rest as it is.
pub open spec fn prefix_text(pre: Seq<char>, o: (Result<Seq<char>, ReaderError>, Seq<char>)) -> (
    Result<Seq<char>, ReaderError>,
    Seq<char>,
) {
    match o.0 {
        Ok(t) => (Ok(pre + t), o.1),
        Err(e) => (Err(e), o.1),
    }
}

/// Outcome of reading the body of a string literal from a stream holding `s`
/// (the opening quote already read): the decoded text, and what the stream
/// holds after the closing quote.
pub open spec fn string_outcome(s: Seq<char>) -> (Result<Seq<char>, ReaderError>, Seq<char>)
    decreases s.len(),
{
    if s.len() == 0 {
        (Err(ReaderError::EndOfInput), s)
    } else if s[0] == '"' {
        (Ok(Seq::empty()), s.drop_first())
    } else if s[0] == '\\' {
        if s.len() == 1 {
            (Err(ReaderError::EndOfInput), s.drop_first())
        } else {
            match escape_of(s[1]) {
                Some(d) => prefix_text(seq![d], string_outcome(s.skip(2))),
                None => (Err(ReaderError::InvalidCharacterEscape), s.skip(2)),
            }
        }
    } else {
        prefix_text(seq![s[0]], string_outcome(s.drop_first()))
    }
}

/// Outcome of reading the body of a pattern literal from a stream holding `s`
/// (the opening delimiter already read). The closing quote stays in the stream.
pub open spec fn pattern_outcome(s: Seq<char>) -> (Result<Seq<char>, ReaderError>, Seq<char>) {
    let n = quote_len(s);
    if n < s.len() {
        (Ok(s.take(n as int)), s.skip(n as int))
    } else {
        (Err(ReaderError::EndOfInput), Seq::empty())
    }
}

/// Index of the last `/` in `t`, or -1 when there is none.
pub open spec fn last_slash(t: Seq<char>) -> int
    decreases t.len(),
{
    if t.len() == 0 {
        -1
    } else if t.last() == '/' {
        t.len() - 1
    } else {
        last_slash(t.drop_last())
    }
}

/// `last_slash` points at a `/` with none after it.
pub proof fn lemma_last_slash(t: Seq<char>)
    ensures
        -1 <= last_slash(t) < t.len(),
        last_slash(t) >= 0 ==> t[last_slash(t)] == '/',
        forall|j: int| last_slash(t) < j < t.len() ==> #[trigger] t[j] != '/',
    decreases t.len(),
{
    if t.len() > 0 && t.last() != '/' {
        lemma_last_slash(t.drop_last());
        assert forall|j: int| last_slash(t) < j < t.len() implies #[trigger] t[j] != '/' by {
            if j < t.len() - 1 {
                assert(t.drop_last()[j] == t[j]);
            }
        }
    }
}

/// `last_slash` is the only index with its defining properties.
pub proof fn lemma_last_slash_unique(t: Seq<char>, k: int)
    requires
        -1 <= k < t.len(),
        k >= 0 ==> t[k] == '/',
        forall|j: int| k < j < t.len() ==> #[trigger] t[j] != '/',
    ensures
        last_slash(t) == k,
    decreases t.len(),
{
    if t.len() > 0 && k < t.len() - 1 {
        assert(t[t.len() - 1] != '/');
        assert forall|j: int| k < j < t.drop_last().len() implies #[trigger] t.drop_last()[j]
            != '/' by {
            assert(t.drop_last()[j] == t[j]);
        }
        lemma_last_slash_unique(t.drop_last(), k);
    }
}

/// Whether a token is refused outright as a symbol: empty, ending with `:`,
/// or starting with `::`.
pub open spec fn malformed_token(t: Seq<char>) -> bool {
    t.len() == 0 || t.last() == ':' || (t.len() >= 2 && t[0] == ':' && t[1] == ':')
}

/// A token split at its last `/` into namespace and name; either part may be
/// empty. Without a `/` the whole token is the name.
pub open spec fn parse_token(t: Seq<char>) -> Result<QualifiedName, ReaderError> {
    if malformed_token(t) {
        Err(ReaderError::InvalidSymbol)
    } else {
        let i = last_slash(t);
        if i < 0 {
            Ok((None, t))
        } else {
            Ok((Some(t.take(i)), t.skip(i + 1)))
        }
    }
}

/// A name that is not empty, with a namespace, if any, that is not empty.
pub open spec fn parsed_parts_nonempty(q: QualifiedName) -> bool {
    q.1.len() > 0 && (q.0 is Some ==> q.0->0.len() > 0)
}

/// A split token as the parts of a symbol or keyword: refused when the
/// namespace or the name is empty.
pub open spec fn nonempty_parts(r: Result<QualifiedName, ReaderError>) -> Result<
    QualifiedName,
    ReaderError,
> {
    match r {
        Ok(q) => if parsed_parts_nonempty(q) {
            Ok(q)
        } else {
            Err(ReaderError::InvalidSymbol)
        },
        Err(e) => Err(e),
    }
}

/// The symbol a token denotes; the lone `/` names the division operator.
pub open spec fn symbol_of_token(t: Seq<char>) -> Result<QualifiedName, ReaderError> {
    if t == seq!['/'] {
        Ok((None, t))
    } else {
        nonempty_parts(parse_token(t))
    }
}

/// The keyword a token (read after the leading `:`) denotes.
pub open spec fn keyword_of_token(t: Seq<char>) -> Result<QualifiedName, ReaderError> {
    match parse_token(t) {
        Err(e) => Err(e),
        Ok(q) => if t[0] == ':' {
            Err(ReaderError::InvalidKeyword)
        } else {
            nonempty_parts(Ok(q))
        },
    }
}

/// Outcome of reading a symbol whose first character `initch` is already read,
/// from a stream holding `s`.
pub open spec fn symbol_outcome(initch: char, s: Seq<char>) -> (
    Result<QualifiedName, ReaderError>,
    Seq<char>,
) {
    let n = token_len(s) as int;
    (symbol_of_token(seq![initch] + s.take(n)), s.skip(n))
}

/// Outcome of reading a keyword from a stream holding `s` (the leading `:`
/// already read).
pub open spec fn keyword_outcome(s: Seq<char>) -> (Result<QualifiedName, ReaderError>, Seq<char>) {
    if s.len() == 0 {
        (Err(ReaderError::EndOfInput), s)
    } else if whitespace(s[0]) {
        (Err(ReaderError::InvalidToken), s.drop_first())
    } else {
        let rest = s.drop_first();
        let n = token_len(rest) as int;
        (keyword_of_token(seq![s[0]] + rest.take(n)), rest.skip(n))
    }
}

} // verus!

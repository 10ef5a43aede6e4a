//! The character stream with pushback, the token scanner, and the readers for
//! strings, patterns, symbols and keywords.
use vstd::prelude::*;
use crate::lexical::{
    boundary_stop, decides, escape_of, keyword_outcome, lemma_last_slash_unique,
    lemma_span_len_unique, macro_terminating, parse_token, parsed_parts_nonempty, pattern_outcome, peek_outcome,
    prefix_text, quote_stop, read_outcome, scan_outcome, span_len, string_outcome,
    symbol_outcome, token_boundary, token_len, unread_outcome, whitespace,
};
use crate::types::{Keyword, Pattern, QualifiedName, Symbol};

verus! {

/// Why a read failed.
#[derive(Debug, PartialEq, Eq, Structural, Clone, Copy)]
pub enum ReaderError {
    EndOfInput,
    CannotUnreadCharacter,
    InvalidToken,
    InvalidCharacterEscape,
    InvalidSymbol,
    InvalidKeyword,
}

pub type ReaderResult<T> = Result<T, ReaderError>;

/// The abstract form of a reader's result.
pub open spec fn result_view<T: View>(r: ReaderResult<T>) -> Result<T::V, ReaderError> {
    match r {
        Ok(v) => Ok(v@),
        Err(e) => Err(e),
    }
}

/// The abstract form of a token split into namespace and name.
pub open spec fn qualified_view(r: ReaderResult<(Option<String>, String)>) -> Result<
    QualifiedName,
    ReaderError,
> {
    match r {
        Ok((ns, name)) => Ok((ns_view(ns), name@)),
        Err(e) => Err(e),
    }
}

/// A character stream over an in-memory input, with unbounded pushback.
pub struct Reader {
    /// What is left of the input, the next character last.
    rest: Vec<char>,
    /// Characters pushed back, the most recent last.
    buf: Vec<char>,
}

impl View for Reader {
    type V = Seq<char>;

    /// The characters the stream will deliver, in order: pushed-back ones
    /// first, most recent first, then the rest of the input.
    closed spec fn view(&self) -> Seq<char> {
        (self.rest@ + self.buf@).reverse()
    }
}

/// Relies on String::push: appends one character.
#[verifier::external_body]
fn push_char(s: &mut String, c: char)
    ensures
        final(s)@ == old(s)@.push(c),
{
    s.push(c)
}

/// A stream that delivers the characters of `s`.
pub fn string_reader(s: &str) -> (r: Reader)
    ensures
        r@ == s@,
{
    let n = s.unicode_len();
    let mut rest: Vec<char> = Vec::new();
    let mut i: usize = n;
    while i > 0
        invariant
            n == s@.len(),
            i <= n,
            rest@ == s@.skip(i as int).reverse(),
        decreases i,
    {
        i = i - 1;
        let c = s.get_char(i);
        rest.push(c);
        assert(rest@ =~= s@.skip(i as int).reverse());
    }
    let r = Reader { rest, buf: Vec::new() };
    assert(r@ =~= s@);
    r
}

/// The next character, left in the stream.
pub fn peek_char(r: &mut Reader) -> (res: ReaderResult<char>)
    ensures
        final(r)@ == old(r)@,
        res == peek_outcome(old(r)@),
{
    if r.buf.len() > 0 {
        let c = r.buf[r.buf.len() - 1];
        assert((r.rest@ + r.buf@).last() == c);
        Ok(c)
    } else if r.rest.len() > 0 {
        let c = r.rest[r.rest.len() - 1];
        assert(r.buf@ =~= Seq::<char>::empty());
        assert(r.rest@ + r.buf@ =~= r.rest@);
        Ok(c)
    } else {
        assert(r.rest@ + r.buf@ =~= Seq::<char>::empty());
        Err(ReaderError::EndOfInput)
    }
}

/// Takes the next character out of the stream.
pub fn read_char(r: &mut Reader) -> (res: ReaderResult<char>)
    ensures
        (res, final(r)@) == read_outcome(old(r)@),
{
    let ghost all = r.rest@ + r.buf@;
    if r.buf.len() > 0 {
        let c = r.buf.pop().unwrap();
        assert(r.rest@ + r.buf@ =~= all.drop_last());
        assert(all.drop_last().reverse() =~= all.reverse().drop_first());
        Ok(c)
    } else if r.rest.len() > 0 {
        let c = r.rest.pop().unwrap();
        assert(r.rest@ + r.buf@ =~= all.drop_last());
        assert(all.drop_last().reverse() =~= all.reverse().drop_first());
        Ok(c)
    } else {
        assert(all =~= Seq::<char>::empty());
        Err(ReaderError::EndOfInput)
    }
}

/// Pushes `c` back, so that it is the next character the stream delivers.
/// There is no bound on how many characters can be pushed back.
pub fn unread_char(r: &mut Reader, c: char) -> (res: ReaderResult<()>)
    ensures
        res is Ok,
        final(r)@ == unread_outcome(old(r)@, c),
{
    let ghost all = r.rest@ + r.buf@;
    r.buf.push(c);
    assert(r.rest@ + r.buf@ =~= all.push(c));
    assert(all.push(c).reverse() =~= seq![c] + all.reverse());
    Ok(())
}

/// Reads characters up to the first one on which `p` holds, and returns
/// those before it. That character is pushed back, so it is the next one the
/// stream delivers. When the input runs out first, the scan fails with
/// `EndOfInput` if `eof_err` is set, and returns all it read otherwise.
pub fn read_while<F: Fn(char) -> bool>(r: &mut Reader, p: &F, eof_err: bool) -> (res:
    ReaderResult<String>)
    requires
        forall|c: char| call_requires(*p, (c,)),
    ensures
        res is Ok ==> res->Ok_0@.len() <= old(r)@.len(),
        res is Ok ==> res->Ok_0@ == old(r)@.take(res->Ok_0@.len() as int),
        res is Ok ==> forall|i: int|
            0 <= i < res->Ok_0@.len() ==> call_ensures(*p, (#[trigger] old(r)@[i],), false),
        res is Ok && res->Ok_0@.len() < old(r)@.len() ==> call_ensures(
            *p,
            (old(r)@[res->Ok_0@.len() as int],),
            true,
        ) && final(r)@ == old(r)@.skip(res->Ok_0@.len() as int),
        res is Ok && res->Ok_0@.len() == old(r)@.len() ==> !eof_err && final(r)@.len() == 0,
        res is Err ==> res->Err_0 == ReaderError::EndOfInput && eof_err && final(r)@.len() == 0,
        res is Err ==> forall|i: int|
            0 <= i < old(r)@.len() ==> call_ensures(*p, (#[trigger] old(r)@[i],), false),
        forall|stop: spec_fn(char) -> bool| #[trigger]
            decides(*p, stop) ==> (result_view(res), final(r)@) == scan_outcome(
                old(r)@,
                stop,
                eof_err,
            ),
{
    let ghost s0 = r@;
    let mut s = String::new();
    loop
        invariant
            s0 == old(r)@,
            forall|c: char| call_requires(*p, (c,)),
            s@.len() <= s0.len(),
            s@ == s0.take(s@.len() as int),
            r@ == s0.skip(s@.len() as int),
            forall|i: int| 0 <= i < s@.len() ==> call_ensures(*p, (#[trigger] s0[i],), false),
        decreases r@.len(),
    {
        match read_char(r) {
            Ok(c) => {
                assert(c == s0[s@.len() as int]);
                if p(c) {
                    unread_char(r, c);
                    assert(r@ =~= s0.skip(s@.len() as int));
                    assert forall|stop: spec_fn(char) -> bool| #[trigger]
                        decides(*p, stop) implies span_len(s0, stop) == s@.len() by {
                        lemma_span_len_unique(s0, stop, s@.len() as int);
                    }
                    return Ok(s);
                } else {
                    push_char(&mut s, c);
                    assert(s@ =~= s0.take(s@.len() as int));
                    assert(r@ =~= s0.skip(s@.len() as int));
                }
            },
            Err(_) => {
                assert(s@.len() == s0.len());
                assert forall|stop: spec_fn(char) -> bool| #[trigger]
                    decides(*p, stop) implies span_len(s0, stop) == s0.len() by {
                    lemma_span_len_unique(s0, stop, s0.len() as int);
                }
                if eof_err {
                    return Err(ReaderError::EndOfInput);
                } else {
                    assert(s@ =~= s0);
                    return Ok(s);
                }
            },
        }
    }
}

/// Whether `c` is a reserved syntax character that ends a token.
pub fn is_macro_terminating(c: char) -> (b: bool)
    ensures
        b == macro_terminating(c),
{
    match c {
        '"' | ';' | '@' | '^' | '`' | '~' | '\\' => true,
        '(' | ')' | '[' | ']' | '{' | '}' => true,
        _ => false,
    }
}

/// Whether `c` is one of the whitespace characters space, newline and
/// carriage return.
pub fn is_whitespace(c: char) -> (b: bool)
    ensures
        b == whitespace(c),
{
    match c {
        ' ' | '\n' | '\r' => true,
        _ => false,
    }
}

/// The text that the escape sequence `\c` stands for in a string literal.
pub fn escape_char(c: char) -> (res: ReaderResult<&'static str>)
    ensures
        match escape_of(c) {
            Some(d) => res is Ok && res->Ok_0@ == seq![d],
            None => res == Err::<&'static str, ReaderError>(ReaderError::InvalidCharacterEscape),
        },
{
    proof {
        reveal_strlit("\t");
        reveal_strlit("\r");
        reveal_strlit("\n");
        reveal_strlit("\\");
        reveal_strlit("\"");
    }
    match c {
        't' => Ok("\t"),
        'r' => Ok("\r"),
        'n' => Ok("\n"),
        '\\' => Ok("\\"),
        '"' => Ok("\""),
        _ => Err(ReaderError::InvalidCharacterEscape),
    }
}

/// Reads the body of a string literal whose opening quote is already read,
/// up to and including the closing quote, and decodes its escape sequences.
pub fn read_string_type(r: &mut Reader, _open: char) -> (res: ReaderResult<String>)
    ensures
        (result_view(res), final(r)@) == string_outcome(old(r)@),
{
    let mut s = String::new();
    loop
        invariant
            string_outcome(old(r)@) == prefix_text(s@, string_outcome(r@)),
        decreases r@.len(),
    {
        let ghost before = r@;
        let ghost acc = s@;
        match read_char(r) {
            Ok('"') => {
                assert(s@ + Seq::<char>::empty() =~= s@);
                return Ok(s);
            },
            Ok('\\') => {
                match read_char(r) {
                    Ok(e) => {
                        assert(before.skip(2) =~= r@);
                        match escape_char(e) {
                            Ok(d) => {
                                s.append(d);
                                assert forall|t: Seq<char>| acc + (d@ + t) == s@ + t by {
                                    assert(acc + (d@ + t) =~= s@ + t);
                                }
                            },
                            Err(err) => {
                                return Err(err);
                            },
                        }
                    },
                    Err(err) => {
                        return Err(err);
                    },
                }
            },
            Ok(c) => {
                push_char(&mut s, c);
                assert forall|t: Seq<char>| acc + (seq![c] + t) == s@ + t by {
                    assert(acc + (seq![c] + t) =~= s@ + t);
                }
            },
            Err(err) => {
                return Err(err);
            },
        }
    }
}

/// Reads the body of a pattern literal whose opening delimiter is already
/// read: the text up to the next double quote, verbatim. The quote stays in
/// the stream; without one the read fails with `EndOfInput`.
pub fn read_regex(r: &mut Reader, _open: char) -> (res: ReaderResult<Pattern>)
    ensures
        (result_view(res), final(r)@) == pattern_outcome(old(r)@),
{
    let ghost s0 = r@;
    let stop = |c: char| -> (b: bool)
        ensures
            b == (c == '"'),
        { c == '"' };
    let res = read_while(r, &stop, true);
    match res {
        Ok(s) => {
            proof {
                lemma_span_len_unique(s0, quote_stop(), s@.len() as int);
            }
            Ok(Pattern(s))
        },
        Err(e) => {
            proof {
                lemma_span_len_unique(s0, quote_stop(), s0.len() as int);
            }
            Err(e)
        },
    }
}

/// Reads the rest of a token whose first character `initch` is already read:
/// the characters up to the next whitespace or macro-terminating one, or to
/// the end of the input. The character that ends it stays in the stream.
pub fn read_token(r: &mut Reader, initch: char) -> (res: ReaderResult<String>)
    ensures
        res is Ok,
        res->Ok_0@ == seq![initch] + old(r)@.take(token_len(old(r)@) as int),
        final(r)@ == old(r)@.skip(token_len(old(r)@) as int),
{
    let ghost s0 = r@;
    let stop = |c: char| -> (b: bool)
        ensures
            b == token_boundary(c),
        { is_macro_terminating(c) || is_whitespace(c) };
    let res = read_while(r, &stop, false);
    match res {
        Ok(s) => {
            proof {
                lemma_span_len_unique(s0, boundary_stop(), s@.len() as int);
            }
            let mut t = String::new();
            push_char(&mut t, initch);
            t.append(s.as_str());
            assert(t@ =~= seq![initch] + s@);
            Ok(t)
        },
        Err(e) => Err(e),
    }
}

/// Splits a token at its last `/` into an optional namespace and a name,
/// either of which may be empty. Fails with `InvalidSymbol` on an empty
/// token, one that ends with `:`, and one that starts with `::`.
pub fn parse_symbol(token: String) -> (res: ReaderResult<(Option<String>, String)>)
    ensures
        qualified_view(res) == parse_token(token@),
{
    let t = token.as_str();
    let n = t.unicode_len();
    if n == 0 || t.get_char(n - 1) == ':' || (n >= 2 && t.get_char(0) == ':' && t.get_char(1)
        == ':') {
        return Err(ReaderError::InvalidSymbol);
    }
    let mut i: usize = n;
    while i > 0 && t.get_char(i - 1) != '/'
        invariant
            i <= n,
            n == t@.len(),
            forall|j: int| i <= j < n ==> #[trigger] t@[j] != '/',
        decreases i,
    {
        i = i - 1;
    }
    proof {
        lemma_last_slash_unique(token@, i - 1);
    }
    if i == 0 {
        Ok((None, token))
    } else {
        let ns = t.substring_char(0, i - 1).to_owned();
        let name = t.substring_char(i, n).to_owned();
        Ok((Some(ns), name))
    }
}

/// Whether the namespace, if there is one, or the name is empty.
fn has_empty_part(ns: &Option<String>, name: &String) -> (b: bool)
    ensures
        b == !parsed_parts_nonempty((ns_view(*ns), name@)),
{
    let empty_ns = match ns {
        Some(x) => x.as_str().unicode_len() == 0,
        None => false,
    };
    empty_ns || name.as_str().unicode_len() == 0
}

/// The abstract form of an optional namespace.
pub open spec fn ns_view(ns: Option<String>) -> Option<Seq<char>> {
    match ns {
        Some(x) => Some(x@),
        None => None,
    }
}

/// Reads a symbol whose first character `initch` is already read. The token
/// `/` alone is the symbol named `/`; any other token is split as
/// `parse_symbol` does, and refused with `InvalidSymbol` when its namespace or
/// name is empty.
pub fn read_symbol(r: &mut Reader, initch: char) -> (res: ReaderResult<Symbol>)
    ensures
        (result_view(res), final(r)@) == symbol_outcome(initch, old(r)@),
{
    let token = match read_token(r, initch) {
        Ok(t) => t,
        Err(e) => return Err(e),
    };
    let t = token.as_str();
    if t.unicode_len() == 1 && t.get_char(0) == '/' {
        assert(token@ =~= seq!['/']);
        return Ok(Symbol::SimpleSymbol(token));
    }
    match parse_symbol(token) {
        Ok((ns, name)) => {
            if has_empty_part(&ns, &name) {
                Err(ReaderError::InvalidSymbol)
            } else {
                match ns {
                    None => Ok(Symbol::SimpleSymbol(name)),
                    Some(ns) => Ok(Symbol::NamespacedSymbol(ns, name)),
                }
            }
        },
        Err(e) => Err(e),
    }
}

/// Reads a keyword whose leading `:` is already read. Fails with
/// `InvalidToken` when whitespace follows the colon; with `InvalidSymbol` on
/// a token that `parse_symbol` refuses; then with `InvalidKeyword` when the
/// token starts with a second colon; and last with `InvalidSymbol` when its
/// namespace or name is empty.
pub fn read_keyword(r: &mut Reader, _colon: char) -> (res: ReaderResult<Keyword>)
    ensures
        (result_view(res), final(r)@) == keyword_outcome(old(r)@),
{
    match read_char(r) {
        Err(e) => Err(e),
        Ok(c) => {
            if is_whitespace(c) {
                Err(ReaderError::InvalidToken)
            } else {
                let token = match read_token(r, c) {
                    Ok(t) => t,
                    Err(e) => return Err(e),
                };
                let leading_colon = token.as_str().get_char(0) == ':';
                match parse_symbol(token) {
                    Err(e) => Err(e),
                    Ok((ns, name)) => {
                        if leading_colon {
                            Err(ReaderError::InvalidKeyword)
                        } else if has_empty_part(&ns, &name) {
                            Err(ReaderError::InvalidSymbol)
                        } else {
                            match ns {
                                Some(ns) => Ok(Keyword::NamespacedKeyword(ns, name)),
                                None => Ok(Keyword::SimpleKeyword(name)),
                            }
                        }
                    },
                }
            }
        },
    }
}

} // verus!

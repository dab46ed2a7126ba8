//! The metadata tokenizer: a single forward pass over one comment line that
//! recognises `identifier: value` declarations and emits a typed token
//! stream.
//!
//! A line is scanned only when it begins with the configured comment prefix
//! (`//` by default). After the prefix, the scanner recognises zero or more
//! pairs `identifier ':' value`, separated by commas. Whitespace directly
//! after the prefix, around the colon and around commas is insignificant and
//! never appears in emitted token text; the colon itself is emitted as an
//! `Assign` token with text `":"`, and commas are pure separators. A value
//! runs to the next comma or to the end of the line; an identifier that is
//! opened but never followed by a colon is dropped without emitting tokens.
//! Every declaration is confined to one line: a scan leaves no state behind,
//! so the lexer is unchanged by a call (stated in the contract of
//! [`Lexer::parse_line`]).

use vstd::prelude::*;
use vstd::string::*;

use crate::text::{find_char_from, find_from, has_prefix, lemma_find_from_bounds,
    str_has_prefix, substring_trimmed, trim};

verus! {

/// The role a token plays inside a declaration.
#[derive(PartialEq, Eq, Structural, Debug, Clone, Copy)]
pub enum Operation {
    Assign,
    Identifier,
    Value,
}

/// One recognised token: its role and the exact text recognised for it,
/// with delimiting colons, commas and whitespace already excluded.
#[derive(Debug)]
pub struct Token {
    pub operation: Operation,
    pub value: String,
}

/// The mathematical image of a [`Token`]: its role and its text as a
/// sequence of characters.
pub ghost struct TokenView {
    pub operation: Operation,
    pub text: Seq<char>,
}

impl View for Token {
    type V = TokenView;

    open spec fn view(&self) -> TokenView {
        TokenView { operation: self.operation, text: self.value@ }
    }
}

impl PartialEq for Token {
    fn eq(&self, other: &Self) -> (r: bool) {
        self.operation == other.operation && self.value == other.value
    }
}

impl vstd::std_specs::cmp::PartialEqSpecImpl for Token {
    open spec fn obeys_eq_spec() -> bool {
        true
    }

    open spec fn eq_spec(&self, other: &Token) -> bool {
        self.operation == other.operation && self.value@ == other.value@
    }
}

/// Error type of the scanning interface. The scanner is total and never
/// produces it: recognition failures degrade to fewer tokens instead.
#[derive(Debug, Clone, Copy)]
pub struct ParseError;

impl ParseError {
    /// The error rendered as text.
    pub fn message(&self) -> (r: String)
        ensures
            r@ == "can't parse line"@,
    {
        "can't parse line".to_owned()
    }
}

/// The views of a token sequence, in order.
pub open spec fn token_views(ts: Seq<Token>) -> Seq<TokenView> {
    ts.map_values(|t: Token| t@)
}

proof fn lemma_token_views_push(ts: Seq<Token>, t: Token)
    ensures
        token_views(ts.push(t)) == token_views(ts).push(t@),
{
    assert(token_views(ts.push(t)) =~= token_views(ts).push(t@));
}

/// The tokens recognised from position `i` of the line onward, with the
/// scanner awaiting the next identifier at `i`.
///
/// Each declaration is the text up to the next colon (the identifier,
/// trimmed), the colon itself, and the text up to the next comma or to the
/// end of the line (the value, trimmed). Text in which no colon follows —
/// a blank tail, or an identifier the line ends inside — yields no tokens.
pub open spec fn tokens_from(s: Seq<char>, i: int) -> Seq<TokenView>
    decreases s.len() - i,
    when 0 <= i <= s.len()
    via tokens_from_decreases
{
    let k = find_from(s, i, ':');
    if k == s.len() {
        Seq::empty()
    } else {
        let n = find_from(s, k + 1, ',');
        let head = seq![
            TokenView { operation: Operation::Identifier, text: trim(s.subrange(i, k)) },
            TokenView { operation: Operation::Assign, text: seq![':'] },
            TokenView { operation: Operation::Value, text: trim(s.subrange(k + 1, n)) },
        ];
        if n == s.len() {
            head
        } else {
            head + tokens_from(s, n + 1)
        }
    }
}

#[via_fn]
proof fn tokens_from_decreases(s: Seq<char>, i: int) {
    lemma_find_from_bounds(s, i, ':');
    let k = find_from(s, i, ':');
    if k < s.len() {
        lemma_find_from_bounds(s, k + 1, ',');
    }
}

/// What one call of [`Lexer::parse_line`] returns: nothing for a line that
/// does not begin with the prefix, and otherwise the declarations found
/// after the prefix.
pub open spec fn spec_parse_line(prefix: Seq<char>, line: Seq<char>) -> Seq<TokenView> {
    if has_prefix(line, prefix) {
        tokens_from(line, prefix.len() as int)
    } else {
        Seq::empty()
    }
}

/// A line that does not begin with the configured prefix yields no tokens:
/// no character of such a line is scanned.
pub proof fn lemma_prefix_mismatch_scans_nothing(prefix: Seq<char>, line: Seq<char>)
    requires
        !has_prefix(line, prefix),
    ensures
        spec_parse_line(prefix, line) == Seq::<TokenView>::empty(),
{
}

/// The data-model invariant of the token stream: tokens always come in
/// complete declarations, each the ordered triple `Identifier`, `Assign`,
/// `Value` with the `Assign` text exactly `":"`; no triple is split or
/// reordered.
pub proof fn lemma_tokens_form_triples(prefix: Seq<char>, line: Seq<char>)
    ensures
        spec_parse_line(prefix, line).len() % 3 == 0,
        forall|j: int|
            0 <= j < spec_parse_line(prefix, line).len() ==> (#[trigger] spec_parse_line(
                prefix,
                line,
            )[j]).operation == (if j % 3 == 0 {
                Operation::Identifier
            } else if j % 3 == 1 {
                Operation::Assign
            } else {
                Operation::Value
            }),
        forall|j: int|
            0 <= j < spec_parse_line(prefix, line).len() && j % 3 == 1 ==> (
            #[trigger] spec_parse_line(prefix, line)[j]).text == seq![':'],
{
    if has_prefix(line, prefix) {
        lemma_tokens_from_triples(line, prefix.len() as int);
    }
}

proof fn lemma_tokens_from_triples(s: Seq<char>, i: int)
    requires
        0 <= i <= s.len(),
    ensures
        tokens_from(s, i).len() % 3 == 0,
        forall|j: int|
            0 <= j < tokens_from(s, i).len() ==> (#[trigger] tokens_from(s, i)[j]).operation == (
            if j % 3 == 0 {
                Operation::Identifier
            } else if j % 3 == 1 {
                Operation::Assign
            } else {
                Operation::Value
            }),
        forall|j: int|
            0 <= j < tokens_from(s, i).len() && j % 3 == 1 ==> (#[trigger] tokens_from(s, i)[j]).text
                == seq![':'],
    decreases s.len() - i,
{
    lemma_find_from_bounds(s, i, ':');
    let k = find_from(s, i, ':');
    if k != s.len() {
        lemma_find_from_bounds(s, k + 1, ',');
        let n = find_from(s, k + 1, ',');
        if n != s.len() {
            lemma_tokens_from_triples(s, n + 1);
            let toks = tokens_from(s, i);
            let rest = tokens_from(s, n + 1);
            assert(toks.len() == 3 + rest.len());
            assert((3 + rest.len()) % 3 == rest.len() % 3) by (nonlinear_arith);
            assert forall|j: int| 3 <= j < toks.len() implies #[trigger] toks[j] == rest[j - 3]
                && (j - 3) % 3 == j % 3 by {
                assert(toks[j] == rest[j - 3]);
                assert((j - 3) % 3 == j % 3) by (nonlinear_arith);
            }
        }
    }
}

/// What the grammar promises of one emitted token: its text never begins
/// or ends with a space; an `Identifier` text never holds a colon; a
/// `Value` text never holds a comma.
pub open spec fn token_text_clean(t: TokenView) -> bool {
    &&& t.text.len() > 0 ==> t.text[0] != ' '
    &&& t.text.len() > 0 ==> t.text[t.text.len() - 1] != ' '
    &&& t.operation == Operation::Identifier ==> forall|i: int|
        0 <= i < t.text.len() ==> t.text[i] != ':'
    &&& t.operation == Operation::Value ==> forall|i: int|
        0 <= i < t.text.len() ==> t.text[i] != ','
}

/// Delimiters never leak into token text: whitespace used for delimiting
/// is absent from every emitted text, the colon that ends an identifier is
/// not part of it, and the comma that ends a value is a pure separator,
/// never part of the value.
pub proof fn lemma_token_text_clean(prefix: Seq<char>, line: Seq<char>)
    ensures
        forall|j: int|
            0 <= j < spec_parse_line(prefix, line).len() ==> token_text_clean(
                #[trigger] spec_parse_line(prefix, line)[j],
            ),
{
    if has_prefix(line, prefix) {
        lemma_tokens_from_clean(line, prefix.len() as int);
    }
}

proof fn lemma_tokens_from_clean(s: Seq<char>, i: int)
    requires
        0 <= i <= s.len(),
    ensures
        forall|j: int|
            0 <= j < tokens_from(s, i).len() ==> token_text_clean(#[trigger] tokens_from(s, i)[j]),
    decreases s.len() - i,
{
    lemma_find_from_bounds(s, i, ':');
    let k = find_from(s, i, ':');
    if k != s.len() {
        lemma_find_from_bounds(s, k + 1, ',');
        let n = find_from(s, k + 1, ',');
        let ident_raw = s.subrange(i, k);
        assert forall|x: int| 0 <= x < ident_raw.len() implies ident_raw[x] != ':' by {
            assert(ident_raw[x] == s[i + x]);
        }
        crate::text::lemma_trim_excludes(ident_raw, ':');
        crate::text::lemma_trim_edges(ident_raw);
        let value_raw = s.subrange(k + 1, n);
        assert forall|x: int| 0 <= x < value_raw.len() implies value_raw[x] != ',' by {
            assert(value_raw[x] == s[k + 1 + x]);
        }
        crate::text::lemma_trim_excludes(value_raw, ',');
        crate::text::lemma_trim_edges(value_raw);
        let toks = tokens_from(s, i);
        if n != s.len() {
            lemma_tokens_from_clean(s, n + 1);
            let rest = tokens_from(s, n + 1);
            assert forall|j: int| 0 <= j < toks.len() implies token_text_clean(
                #[trigger] toks[j],
            ) by {
                if j >= 3 {
                    assert(toks[j] == rest[j - 3]);
                    assert(token_text_clean(rest[j - 3]));
                }
            }
        }
    }
}

/// The scanning session. It owns the configured comment prefix; its view is
/// that prefix. Because every declaration is confined to one line, a scan
/// carries no state from one call to the next.
pub struct Lexer {
    prefix: String,
}

impl View for Lexer {
    type V = Seq<char>;

    closed spec fn view(&self) -> Seq<char> {
        self.prefix@
    }
}

impl Lexer {
    /// A lexer recognising lines behind the `//` comment prefix.
    pub fn new() -> (r: Self)
        ensures
            r@ == "//"@,
    {
        Lexer { prefix: "//".to_owned() }
    }

    /// A lexer recognising lines behind the given comment prefix.
    pub fn with_prefix(prefix: String) -> (r: Self)
        ensures
            r@ == prefix@,
    {
        Lexer { prefix }
    }

    /// Scan one line and return the tokens of the declarations on it, in
    /// left-to-right order of recognition.
    ///
    /// The scanner is total: the result is always `Ok`, and carries exactly
    /// the tokens [`spec_parse_line`] describes for the configured prefix.
    /// The receiver is left unchanged: re-scanning a line, on this instance
    /// or on a freshly constructed one with the same prefix, yields the same
    /// tokens again.
    pub fn parse_line(&mut self, line: String) -> (r: Result<Vec<Token>, ParseError>)
        ensures
            r is Ok,
            token_views(r->Ok_0@) == spec_parse_line(old(self)@, line@),
            *final(self) == *old(self),
    {
        let mut result: Vec<Token> = Vec::new();
        if !str_has_prefix(line.as_str(), self.prefix.as_str()) {
            proof {
                assert(token_views(result@) =~= Seq::<TokenView>::empty());
            }
            return Ok(result);
        }
        let plen = self.prefix.as_str().unicode_len();
        scan_from(line.as_str(), plen, &mut result);
        proof {
            assert(token_views(Seq::<Token>::empty()) + tokens_from(line@, plen as int)
                =~= tokens_from(line@, plen as int));
        }
        Ok(result)
    }
}

/// One pass of the scanner from position `i`, appending the recognised
/// tokens. Mirrors [`tokens_from`] declaration by declaration.
fn scan_from(s: &str, i: usize, result: &mut Vec<Token>)
    requires
        i <= s@.len(),
    ensures
        token_views(final(result)@) == token_views(old(result)@) + tokens_from(s@, i as int),
    decreases s@.len() - i,
{
    let len = s.unicode_len();
    let k = find_char_from(s, i, ':');
    if k == len {
        proof {
            assert(token_views(result@) =~= token_views(result@) + Seq::<TokenView>::empty());
        }
        return;
    }
    let ghost before = result@;
    let ident = substring_trimmed(s, i, k);
    result.push(Token { operation: Operation::Identifier, value: ident });
    result.push(Token { operation: Operation::Assign, value: ":".to_owned() });
    let n = find_char_from(s, k + 1, ',');
    let val = substring_trimmed(s, k + 1, n);
    result.push(Token { operation: Operation::Value, value: val });
    proof {
        reveal_strlit(":");
        assert(":"@ =~= seq![':']);
        lemma_token_views_push(before, Token { operation: Operation::Identifier, value: ident });
        assert(token_views(result@) =~= token_views(before) + seq![
            TokenView { operation: Operation::Identifier, text: trim(s@.subrange(i as int, k as int)) },
            TokenView { operation: Operation::Assign, text: seq![':'] },
            TokenView { operation: Operation::Value, text: trim(s@.subrange(k + 1, n as int)) },
        ]);
    }
    if n == len {
        proof {
            assert(token_views(result@) =~= token_views(before) + tokens_from(s@, i as int));
        }
        return;
    }
    scan_from(s, n + 1, result);
    proof {
        assert(token_views(result@) =~= token_views(before) + tokens_from(s@, i as int));
    }
}

} // verus!

//! Token kinds, the emitted token type, and the abstract token model that
//! the grammar's specifications speak of.
use vstd::prelude::*;

use crate::source::{byte_offset, lemma_byte_offset_mono, lemma_encode_concat, lemma_encode_subrange};
use vstd::utf8::encode_utf8;

verus! {

/// The closed set of kinds a token can have.
///
/// `Whitespace` only ever separates grammar elements and never reaches the
/// token stream of a section; `ListDash` marks a list bullet.
#[derive(PartialEq, Eq, Structural, Clone, Copy, Debug)]
pub enum TokenKind {
    Class,
    Comment,
    Decorator,
    Enum,
    EnumMember,
    Event,
    Function,
    Interface,
    Keyword,
    Macro,
    Method,
    Modifier,
    Namespace,
    Number,
    Operator,
    Parameter,
    Property,
    Regexp,
    String,
    Struct,
    Type,
    TypeParameter,
    Variable,
    Whitespace,
    ListDash,
}

/// A token as handed to the caller: its kind, the exact source text it
/// covers, and its half-open byte span `[start, end)` in the document.
#[derive(Clone, Debug, PartialEq)]
pub enum NomToken {
    Class(String, usize, usize),
    Comment(String, usize, usize),
    Decorator(String, usize, usize),
    Enum(String, usize, usize),
    EnumMember(String, usize, usize),
    Event(String, usize, usize),
    Function(String, usize, usize),
    Interface(String, usize, usize),
    Keyword(String, usize, usize),
    Macro(String, usize, usize),
    Method(String, usize, usize),
    Modifier(String, usize, usize),
    Namespace(String, usize, usize),
    Number(String, usize, usize),
    Operator(String, usize, usize),
    Parameter(String, usize, usize),
    Property(String, usize, usize),
    Regexp(String, usize, usize),
    String(String, usize, usize),
    Struct(String, usize, usize),
    Type(String, usize, usize),
    TypeParameter(String, usize, usize),
    Variable(String, usize, usize),
    Whitespace,
    ListDash(String, usize, usize),
}

/// A token of the grammar's model: a kind and a span in characters.
pub struct Tok {
    pub kind: TokenKind,
    pub start: int,
    pub end: int,
}

pub open spec fn tok(kind: TokenKind, start: int, end: int) -> Tok {
    Tok { kind, start, end }
}

/// The separator token of the model, which carries no span.
pub open spec fn ws_tok() -> Tok {
    Tok { kind: TokenKind::Whitespace, start: 0, end: 0 }
}

impl NomToken {
    /// The kind, text, and byte span of a token (the separator has an empty text
    /// and span).
    #[verifier::opaque]
    pub open spec fn parts(&self) -> (TokenKind, Seq<char>, int, int) {
        match self {
            NomToken::Class(t, a, b) => (TokenKind::Class, t@, *a as int, *b as int),
            NomToken::Comment(t, a, b) => (TokenKind::Comment, t@, *a as int, *b as int),
            NomToken::Decorator(t, a, b) => (TokenKind::Decorator, t@, *a as int, *b as int),
            NomToken::Enum(t, a, b) => (TokenKind::Enum, t@, *a as int, *b as int),
            NomToken::EnumMember(t, a, b) => (TokenKind::EnumMember, t@, *a as int, *b as int),
            NomToken::Event(t, a, b) => (TokenKind::Event, t@, *a as int, *b as int),
            NomToken::Function(t, a, b) => (TokenKind::Function, t@, *a as int, *b as int),
            NomToken::Interface(t, a, b) => (TokenKind::Interface, t@, *a as int, *b as int),
            NomToken::Keyword(t, a, b) => (TokenKind::Keyword, t@, *a as int, *b as int),
            NomToken::Macro(t, a, b) => (TokenKind::Macro, t@, *a as int, *b as int),
            NomToken::Method(t, a, b) => (TokenKind::Method, t@, *a as int, *b as int),
            NomToken::Modifier(t, a, b) => (TokenKind::Modifier, t@, *a as int, *b as int),
            NomToken::Namespace(t, a, b) => (TokenKind::Namespace, t@, *a as int, *b as int),
            NomToken::Number(t, a, b) => (TokenKind::Number, t@, *a as int, *b as int),
            NomToken::Operator(t, a, b) => (TokenKind::Operator, t@, *a as int, *b as int),
            NomToken::Parameter(t, a, b) => (TokenKind::Parameter, t@, *a as int, *b as int),
            NomToken::Property(t, a, b) => (TokenKind::Property, t@, *a as int, *b as int),
            NomToken::Regexp(t, a, b) => (TokenKind::Regexp, t@, *a as int, *b as int),
            NomToken::String(t, a, b) => (TokenKind::String, t@, *a as int, *b as int),
            NomToken::Struct(t, a, b) => (TokenKind::Struct, t@, *a as int, *b as int),
            NomToken::Type(t, a, b) => (TokenKind::Type, t@, *a as int, *b as int),
            NomToken::TypeParameter(t, a, b) => (
                TokenKind::TypeParameter,
                t@,
                *a as int,
                *b as int,
            ),
            NomToken::Variable(t, a, b) => (TokenKind::Variable, t@, *a as int, *b as int),
            NomToken::Whitespace => (TokenKind::Whitespace, Seq::empty(), 0, 0),
            NomToken::ListDash(t, a, b) => (TokenKind::ListDash, t@, *a as int, *b as int),
        }
    }

    pub open spec fn kind(&self) -> TokenKind {
        self.parts().0
    }

    pub open spec fn text(&self) -> Seq<char> {
        self.parts().1
    }

    pub open spec fn start(&self) -> int {
        self.parts().2
    }

    pub open spec fn end(&self) -> int {
        self.parts().3
    }
}

/// `t` is the token of `s` that the model token `m` describes: same kind and,
/// unless it is the separator, the characters `m` covers with their byte span.
pub open spec fn realizes(s: Seq<char>, t: NomToken, m: Tok) -> bool {
    &&& t.kind() == m.kind
    &&& m.kind == TokenKind::Whitespace ==> t == NomToken::Whitespace
    &&& m.kind != TokenKind::Whitespace ==> {
        &&& t.text() == s.subrange(m.start, m.end)
        &&& t.start() == byte_offset(s, m.start)
        &&& t.end() == byte_offset(s, m.end)
    }
}

pub open spec fn realizes_all(s: Seq<char>, ts: Seq<NomToken>, ms: Seq<Tok>) -> bool {
    &&& ts.len() == ms.len()
    &&& forall|i: int| 0 <= i < ts.len() ==> #[trigger] realizes(s, ts[i], ms[i])
}

/// The outcome of a grammar rule in the model: where it stopped and the
/// tokens it produced, or `None` where it does not match.
///
/// Rules that repeat another rule only go on where it moved forward within
/// the text (`p < e <= s.len()`). Every rule that matches does move forward
/// (see the `lemma_*_bound` proofs), so that test never stops a repetition;
/// it is what lets the specifications terminate.
pub type Parse = Option<(int, Seq<Tok>)>;

/// The tokens of a model outcome (none where the rule does not match).
pub open spec fn toks_of(r: Parse) -> Seq<Tok> {
    match r {
        Some((_, t)) => t,
        None => seq![],
    }
}

/// Where a model outcome stops (nowhere where the rule does not match).
pub open spec fn end_of(r: Parse) -> int {
    match r {
        Some((q, _)) => q,
        None => -1,
    }
}

/// The outcome of an executable rule: the position (in characters) where it
/// stopped and the tokens it produced.
pub type Step = Option<(usize, Vec<NomToken>)>;

/// An executable outcome is the one the model gives.
pub open spec fn step_is(s: Seq<char>, r: Step, m: Parse) -> bool {
    match m {
        None => r is None,
        Some((q, ms)) => match r {
            Some((p, ts)) => p as int == q && realizes_all(s, ts@, ms),
            None => false,
        },
    }
}

/// Every token is a non-separator with a non-empty span inside `[lo, hi]`,
/// and each token ends before any later one starts.
pub open spec fn spans_ordered(t: Seq<Tok>, lo: int, hi: int) -> bool {
    &&& forall|i: int|
        0 <= i < t.len() ==> lo <= (#[trigger] t[i]).start < t[i].end <= hi && t[i].kind
            != TokenKind::Whitespace
    &&& forall|i: int, j: int|
        0 <= i < j < t.len() ==> (#[trigger] t[i]).end <= (#[trigger] t[j]).start
}

pub proof fn lemma_spans_concat(a: Seq<Tok>, lo: int, mid: int, b: Seq<Tok>, hi: int)
    requires
        spans_ordered(a, lo, mid),
        spans_ordered(b, mid, hi),
        lo <= mid <= hi,
    ensures
        spans_ordered(a + b, lo, hi),
{
    assert forall|i: int, j: int| 0 <= i < j < (a + b).len() implies (#[trigger] (a + b)[i]).end
        <= (#[trigger] (a + b)[j]).start by {
        if j < a.len() {
            assert(a[i].end <= a[j].start);
        } else if i < a.len() {
            assert(a[i].end <= mid);
            assert(mid <= b[j - a.len()].start);
        } else {
            assert(b[i - a.len()].end <= b[j - a.len()].start);
        }
    }
    assert forall|i: int| 0 <= i < (a + b).len() implies lo <= (#[trigger] (a + b)[i]).start
        < (a + b)[i].end <= hi && (a + b)[i].kind != TokenKind::Whitespace by {
        if i < a.len() {
            assert(a[i] == (a + b)[i]);
        } else {
            assert(b[i - a.len()] == (a + b)[i]);
        }
    }
}

pub proof fn lemma_spans_widen(a: Seq<Tok>, lo: int, hi: int, lo2: int, hi2: int)
    requires
        spans_ordered(a, lo, hi),
        lo2 <= lo,
        hi <= hi2,
    ensures
        spans_ordered(a, lo2, hi2),
{
}

/// In bytes: every token is a non-separator with `start < end`, and each
/// token ends before any later one starts.
pub open spec fn byte_spans_ordered(ts: Seq<NomToken>) -> bool {
    &&& forall|i: int|
        0 <= i < ts.len() ==> (#[trigger] ts[i]).kind() != TokenKind::Whitespace && ts[i].start()
            < ts[i].end()
    &&& forall|i: int, j: int|
        0 <= i < j < ts.len() ==> (#[trigger] ts[i]).end() <= (#[trigger] ts[j]).start()
}

/// Tokens whose model spans are ordered have ordered byte spans.
pub proof fn lemma_byte_spans_ordered(s: Seq<char>, ts: Seq<NomToken>, ms: Seq<Tok>)
    requires
        realizes_all(s, ts, ms),
        spans_ordered(ms, 0, s.len() as int),
    ensures
        byte_spans_ordered(ts),
{
    assert forall|i: int| 0 <= i < ts.len() implies (#[trigger] ts[i]).kind()
        != TokenKind::Whitespace && ts[i].start() < ts[i].end() by {
        assert(realizes(s, ts[i], ms[i]));
        assert(ms[i] == ms[i]);
        lemma_byte_offset_mono(s, ms[i].start, ms[i].end);
    }
    assert forall|i: int, j: int| 0 <= i < j < ts.len() implies (#[trigger] ts[i]).end() <= (
    #[trigger] ts[j]).start() by {
        assert(realizes(s, ts[i], ms[i]));
        assert(realizes(s, ts[j], ms[j]));
        assert(ms[i].end <= ms[j].start);
        lemma_byte_offset_mono(s, ms[i].end, ms[j].start);
    }
}

/// The token's span lies in `bytes`, and its text is exactly the UTF-8 text
/// of `bytes` over that span.
pub open spec fn text_at_span(bytes: Seq<u8>, t: NomToken) -> bool {
    &&& 0 <= t.start() <= t.end() <= bytes.len()
    &&& encode_utf8(t.text()) == bytes.subrange(t.start(), t.end())
}

/// Tokens realized from a model with ordered spans carry the exact text of
/// their spans.
pub proof fn lemma_texts_at_spans(s: Seq<char>, ts: Seq<NomToken>, ms: Seq<Tok>)
    requires
        realizes_all(s, ts, ms),
        spans_ordered(ms, 0, s.len() as int),
    ensures
        forall|i: int| 0 <= i < ts.len() ==> text_at_span(encode_utf8(s), #[trigger] ts[i]),
{
    assert forall|i: int| 0 <= i < ts.len() implies text_at_span(encode_utf8(s), #[trigger] ts[i]) by {
        assert(realizes(s, ts[i], ms[i]));
        assert(ms[i] == ms[i]);
        lemma_encode_subrange(s, ms[i].start, ms[i].end);
    }
}

/// The texts of tokens `i` through `j`, joined.
pub open spec fn joined_text(ts: Seq<NomToken>, i: int, j: int) -> Seq<char>
    decreases j - i,
{
    if j <= i {
        ts[i].text()
    } else {
        joined_text(ts, i, j - 1) + ts[j].text()
    }
}

/// Losslessness: where the spans of tokens `i` through `j` follow one another
/// without a gap, their joined texts are exactly the source text over the
/// span from the start of token `i` to the end of token `j`.
pub proof fn lemma_lossless(bytes: Seq<u8>, ts: Seq<NomToken>, i: int, j: int)
    requires
        forall|k: int| 0 <= k < ts.len() ==> text_at_span(bytes, #[trigger] ts[k]),
        0 <= i <= j < ts.len(),
        forall|k: int| i <= k < j ==> (#[trigger] ts[k]).end() == ts[k + 1].start(),
    ensures
        encode_utf8(joined_text(ts, i, j)) == bytes.subrange(ts[i].start(), ts[j].end()),
        ts[i].start() <= ts[j].end(),
    decreases j - i,
{
    assert(text_at_span(bytes, ts[i]));
    assert(text_at_span(bytes, ts[j]));
    if j > i {
        lemma_lossless(bytes, ts, i, j - 1);
        assert(ts[j - 1].end() == ts[j].start());
        lemma_encode_concat(joined_text(ts, i, j - 1), ts[j].text());
        assert(bytes.subrange(ts[i].start(), ts[j - 1].end()) + bytes.subrange(
            ts[j].start(),
            ts[j].end(),
        ) =~= bytes.subrange(ts[i].start(), ts[j].end()));
    }
}

/// The tokens `t` with their spans moved by `d`.
pub open spec fn shift(t: Seq<Tok>, d: int) -> Seq<Tok> {
    t.map_values(|m: Tok| tok(m.kind, m.start + d, m.end + d))
}

pub proof fn lemma_shift_concat(a: Seq<Tok>, b: Seq<Tok>, d: int)
    ensures
        shift(a + b, d) == shift(a, d) + shift(b, d),
{
    assert(shift(a + b, d) =~= shift(a, d) + shift(b, d));
}

} // verus!

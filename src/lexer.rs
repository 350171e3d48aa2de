//! Lexical primitives and the word assembler.
use vstd::prelude::*;

use crate::source::Source;
use crate::token::{
    NomToken, Parse, Step, Tok, TokenKind, end_of, lemma_spans_concat, realizes, realizes_all,
    lemma_shift_concat, shift, spans_ordered, step_is, tok, toks_of, ws_tok,
};

verus! {

/// A space or a tab.
pub open spec fn is_hspace(c: char) -> bool {
    c == ' ' || c == '\t'
}

/// A character that ends a word: a space, a tab, a newline or a carriage return.
pub open spec fn is_break(c: char) -> bool {
    c == ' ' || c == '\t' || c == '\n' || c == '\r'
}

/// The classes of characters that the grammar consumes in runs.
#[derive(PartialEq, Eq, Structural, Clone, Copy)]
pub enum CharClass {
    /// Spaces and tabs.
    HSpace,
    /// Characters that may stand in a word.
    WordChar,
    /// Characters of an attribute key: anything but a colon or a newline.
    KeyChar,
    /// Anything but a newline.
    LineChar,
    /// Spaces, tabs, newlines and carriage returns.
    AnyWs,
}

pub open spec fn in_class(c: char, k: CharClass) -> bool {
    match k {
        CharClass::HSpace => is_hspace(c),
        CharClass::WordChar => !is_break(c),
        CharClass::KeyChar => c != ':' && c != '\n',
        CharClass::LineChar => c != '\n',
        CharClass::AnyWs => is_break(c),
    }
}

/// The end of the longest run of characters of class `k` that starts at `p`.
pub open spec fn scan(s: Seq<char>, p: int, k: CharClass) -> int
    decreases s.len() - p,
{
    if 0 <= p < s.len() && in_class(s[p], k) {
        scan(s, p + 1, k)
    } else {
        p
    }
}

/// `s` holds character `c` at index `p`.
pub open spec fn char_is(s: Seq<char>, p: int, c: char) -> bool {
    0 <= p < s.len() && s[p] == c
}

pub open spec fn str_tok(a: int, b: int) -> Tok {
    tok(TokenKind::String, a, b)
}

pub proof fn lemma_scan(s: Seq<char>, p: int, k: CharClass)
    requires
        0 <= p <= s.len(),
    ensures
        p <= scan(s, p, k) <= s.len(),
        forall|i: int| p <= i < scan(s, p, k) ==> #[trigger] in_class(s[i], k),
        scan(s, p, k) == s.len() || !in_class(s[scan(s, p, k)], k),
    decreases s.len() - p,
{
    if p < s.len() && in_class(s[p], k) {
        lemma_scan(s, p + 1, k);
    }
}

/// Concatenated outcomes realize concatenated models.
pub proof fn lemma_realizes_concat(
    s: Seq<char>,
    a: Seq<NomToken>,
    ma: Seq<Tok>,
    b: Seq<NomToken>,
    mb: Seq<Tok>,
)
    requires
        realizes_all(s, a, ma),
        realizes_all(s, b, mb),
    ensures
        realizes_all(s, a + b, ma + mb),
{
    assert forall|i: int| 0 <= i < (a + b).len() implies #[trigger] realizes(
        s,
        (a + b)[i],
        (ma + mb)[i],
    ) by {
        if i < a.len() {
            assert(realizes(s, a[i], ma[i]));
        } else {
            assert(realizes(s, b[i - a.len()], mb[i - a.len()]));
        }
    }
}

/// Appends `w` to `v`; the model tokens concatenate too.
pub(crate) fn concat_into(
    Ghost(s): Ghost<Seq<char>>,
    v: &mut Vec<NomToken>,
    w: Vec<NomToken>,
    Ghost(mv): Ghost<Seq<Tok>>,
    Ghost(mw): Ghost<Seq<Tok>>,
)
    requires
        realizes_all(s, old(v)@, mv),
        realizes_all(s, w@, mw),
    ensures
        realizes_all(s, final(v)@, mv + mw),
{
    let mut w = w;
    let ghost f = v@;
    let ghost g = w@;
    v.append(&mut w);
    proof {
        lemma_realizes_concat(s, f, mv, g, mw);
    }
}

fn class_test(c: char, k: CharClass) -> (r: bool)
    ensures
        r == in_class(c, k),
{
    match k {
        CharClass::HSpace => c == ' ' || c == '\t',
        CharClass::WordChar => !(c == ' ' || c == '\t' || c == '\n' || c == '\r'),
        CharClass::KeyChar => c != ':' && c != '\n',
        CharClass::LineChar => c != '\n',
        CharClass::AnyWs => c == ' ' || c == '\t' || c == '\n' || c == '\r',
    }
}

/// Consumes the longest run of characters of class `k` at `pos`.
pub fn scan_class(src: &Source, pos: usize, k: CharClass) -> (q: usize)
    requires
        src.wf(),
        pos <= src@.len(),
    ensures
        q == scan(src@, pos as int, k),
        pos <= q <= src@.len(),
{
    let n = src.len();
    let mut q = pos;
    while q < n && class_test(src.char_at(q), k)
        invariant
            src.wf(),
            n == src@.len(),
            pos <= q <= n,
            scan(src@, q as int, k) == scan(src@, pos as int, k),
        decreases n - q,
    {
        q = q + 1;
    }
    q
}

/// Whether `src` holds character `c` at index `p`.
pub fn has_char(src: &Source, p: usize, c: char) -> (r: bool)
    requires
        src.wf(),
    ensures
        r == char_is(src@, p as int, c),
{
    p < src.len() && src.char_at(p) == c
}

/// The token of kind `kind` covering characters `[a, b)`.
pub fn make_token(src: &Source, kind: TokenKind, a: usize, b: usize) -> (t: NomToken)
    requires
        src.wf(),
        a <= b <= src@.len(),
        kind != TokenKind::Whitespace,
    ensures
        realizes(src@, t, tok(kind, a as int, b as int)),
{
    let x = src.text(a, b);
    let s = src.offset(a);
    let e = src.offset(b);
    proof {
        reveal(NomToken::parts);
    }
    match kind {
        TokenKind::Class => NomToken::Class(x, s, e),
        TokenKind::Comment => NomToken::Comment(x, s, e),
        TokenKind::Decorator => NomToken::Decorator(x, s, e),
        TokenKind::Enum => NomToken::Enum(x, s, e),
        TokenKind::EnumMember => NomToken::EnumMember(x, s, e),
        TokenKind::Event => NomToken::Event(x, s, e),
        TokenKind::Function => NomToken::Function(x, s, e),
        TokenKind::Interface => NomToken::Interface(x, s, e),
        TokenKind::Keyword => NomToken::Keyword(x, s, e),
        TokenKind::Macro => NomToken::Macro(x, s, e),
        TokenKind::Method => NomToken::Method(x, s, e),
        TokenKind::Modifier => NomToken::Modifier(x, s, e),
        TokenKind::Namespace => NomToken::Namespace(x, s, e),
        TokenKind::Number => NomToken::Number(x, s, e),
        TokenKind::Operator => NomToken::Operator(x, s, e),
        TokenKind::Parameter => NomToken::Parameter(x, s, e),
        TokenKind::Property => NomToken::Property(x, s, e),
        TokenKind::Regexp => NomToken::Regexp(x, s, e),
        TokenKind::String => NomToken::String(x, s, e),
        TokenKind::Struct => NomToken::Struct(x, s, e),
        TokenKind::Type => NomToken::Type(x, s, e),
        TokenKind::TypeParameter => NomToken::TypeParameter(x, s, e),
        TokenKind::Variable => NomToken::Variable(x, s, e),
        TokenKind::ListDash => NomToken::ListDash(x, s, e),
        TokenKind::Whitespace => NomToken::Whitespace,
    }
}

/// A one-token outcome of kind `kind` covering `[a, b)`.
pub fn one_token(src: &Source, kind: TokenKind, a: usize, b: usize) -> (v: Vec<NomToken>)
    requires
        src.wf(),
        a <= b <= src@.len(),
        kind != TokenKind::Whitespace,
    ensures
        realizes_all(src@, v@, seq![tok(kind, a as int, b as int)]),
{
    let t = make_token(src, kind, a, b);
    let v = vec![t];
    assert(realizes(src@, v@[0], seq![tok(kind, a as int, b as int)][0]));
    v
}

/// The separator outcome.
pub fn separator() -> (v: Vec<NomToken>)
    ensures
        forall|s: Seq<char>| realizes_all(s, v@, seq![ws_tok()]),
{
    let v = vec![NomToken::Whitespace];
    proof {
        reveal(NomToken::parts);
    }
    assert forall|s: Seq<char>| realizes_all(s, v@, seq![ws_tok()]) by {
        assert(realizes(s, v@[0], seq![ws_tok()][0]));
    }
    v
}

pub open spec fn spec_dashes(s: Seq<char>, p: int) -> Parse {
    if char_is(s, p, '-') && char_is(s, p + 1, '-') && 0 <= p + 2 < s.len() && is_hspace(
        s[p + 2],
    ) {
        Some((scan(s, p + 2, CharClass::HSpace), seq![tok(TokenKind::Decorator, p, p + 2)]))
    } else {
        None
    }
}

/// The decorator `--` followed by one or more spaces or tabs; the token
/// covers the two dashes only.
pub fn dashes(src: &Source, pos: usize) -> (r: Step)
    requires
        src.wf(),
        pos <= src@.len(),
    ensures
        step_is(src@, r, spec_dashes(src@, pos as int)),
{
    if has_char(src, pos, '-') && has_char(src, pos + 1, '-') && pos + 2 < src.len()
        && class_test(src.char_at(pos + 2), CharClass::HSpace) {
        let q = scan_class(src, pos + 2, CharClass::HSpace);
        Some((q, one_token(src, TokenKind::Decorator, pos, pos + 2)))
    } else {
        None
    }
}

pub open spec fn spec_whitespace(s: Seq<char>, p: int) -> Parse {
    if 0 <= p < s.len() && is_hspace(s[p]) {
        Some((scan(s, p, CharClass::HSpace), seq![ws_tok()]))
    } else {
        None
    }
}

/// A run of one or more spaces or tabs.
pub fn whitespace(src: &Source, pos: usize) -> (r: Step)
    requires
        src.wf(),
        pos <= src@.len(),
    ensures
        step_is(src@, r, spec_whitespace(src@, pos as int)),
{
    if pos < src.len() && class_test(src.char_at(pos), CharClass::HSpace) {
        Some((scan_class(src, pos, CharClass::HSpace), separator()))
    } else {
        None
    }
}

pub open spec fn spec_single_newline(s: Seq<char>, p: int) -> Parse {
    if char_is(s, p, '\n') {
        Some((p + 1, seq![ws_tok()]))
    } else {
        None
    }
}

/// One newline.
pub fn single_newline(src: &Source, pos: usize) -> (r: Step)
    requires
        src.wf(),
        pos <= src@.len(),
    ensures
        step_is(src@, r, spec_single_newline(src@, pos as int)),
{
    if has_char(src, pos, '\n') {
        Some((pos + 1, separator()))
    } else {
        None
    }
}

pub open spec fn spec_blank_line(s: Seq<char>, p: int) -> Parse {
    let q = scan(s, p, CharClass::HSpace);
    if char_is(s, q, '\n') {
        Some((q + 1, seq![]))
    } else {
        None
    }
}

/// The end of a line: optional spaces or tabs, then a newline. Produces no token.
pub fn blank_line(src: &Source, pos: usize) -> (r: Step)
    requires
        src.wf(),
        pos <= src@.len(),
    ensures
        step_is(src@, r, spec_blank_line(src@, pos as int)),
{
    let q = scan_class(src, pos, CharClass::HSpace);
    if has_char(src, q, '\n') {
        Some((q + 1, Vec::new()))
    } else {
        None
    }
}

pub open spec fn spec_empty_line(s: Seq<char>, p: int) -> Parse {
    if char_is(s, p, '\n') {
        let q = scan(s, p + 1, CharClass::HSpace);
        if char_is(s, q, '\n') {
            Some((scan(s, q + 1, CharClass::AnyWs), seq![ws_tok()]))
        } else {
            None
        }
    } else {
        None
    }
}

/// The blank-line separator: a newline, optional spaces or tabs, a newline,
/// then every further whitespace character, so that a run of blank lines
/// counts once.
pub fn empty_line(src: &Source, pos: usize) -> (r: Step)
    requires
        src.wf(),
        pos <= src@.len(),
    ensures
        step_is(src@, r, spec_empty_line(src@, pos as int)),
{
    if has_char(src, pos, '\n') {
        let q = scan_class(src, pos + 1, CharClass::HSpace);
        if has_char(src, q, '\n') {
            Some((scan_class(src, q + 1, CharClass::AnyWs), separator()))
        } else {
            None
        }
    } else {
        None
    }
}

pub open spec fn spec_wordbreak(s: Seq<char>, p: int) -> Parse {
    let q = scan(s, p, CharClass::HSpace);
    let r = if char_is(s, q, '\n') {
        scan(s, q + 1, CharClass::HSpace)
    } else {
        q
    };
    if r > p {
        Some((r, seq![ws_tok()]))
    } else {
        None
    }
}

/// What may stand between two words of a paragraph: spaces or tabs, a single
/// newline, or both, but never a blank line.
pub fn wordbreak(src: &Source, pos: usize) -> (r: Step)
    requires
        src.wf(),
        pos <= src@.len(),
    ensures
        step_is(src@, r, spec_wordbreak(src@, pos as int)),
{
    let q = scan_class(src, pos, CharClass::HSpace);
    let r = if has_char(src, q, '\n') {
        scan_class(src, q + 1, CharClass::HSpace)
    } else {
        q
    };
    if r > pos {
        Some((r, separator()))
    } else {
        None
    }
}

pub open spec fn spec_non_lt_char(s: Seq<char>, p: int) -> Parse {
    if 0 <= p < s.len() && !is_break(s[p]) && s[p] != '<' {
        Some((p + 1, seq![str_tok(p, p + 1)]))
    } else {
        None
    }
}

/// One word character other than the marker `<`.
pub fn non_lt_char(src: &Source, pos: usize) -> (r: Step)
    requires
        src.wf(),
        pos <= src@.len(),
    ensures
        step_is(src@, r, spec_non_lt_char(src@, pos as int)),
{
    if pos < src.len() && class_test(src.char_at(pos), CharClass::WordChar) && src.char_at(pos)
        != '<' {
        Some((pos + 1, one_token(src, TokenKind::String, pos, pos + 1)))
    } else {
        None
    }
}

pub open spec fn spec_lt_with_non_lt_char(s: Seq<char>, p: int) -> Parse {
    if char_is(s, p, '<') && spec_non_lt_char(s, p + 1) is Some {
        Some((p + 2, seq![str_tok(p, p + 1), str_tok(p + 1, p + 2)]))
    } else {
        None
    }
}

/// The marker `<` followed by a word character other than the marker, as two tokens.
pub fn lt_with_non_lt_char(src: &Source, pos: usize) -> (r: Step)
    requires
        src.wf(),
        pos <= src@.len(),
    ensures
        step_is(src@, r, spec_lt_with_non_lt_char(src@, pos as int)),
{
    if has_char(src, pos, '<') {
        match non_lt_char(src, pos + 1) {
            Some((q, mut second)) => {
                let mut v = one_token(src, TokenKind::String, pos, pos + 1);
                v.append(&mut second);
                proof {
                    lemma_realizes_concat(
                        src@,
                        v@.take(1),
                        seq![str_tok(pos as int, pos + 1)],
                        v@.skip(1),
                        seq![str_tok(pos + 1, pos + 2)],
                    );
                    assert(v@.take(1) + v@.skip(1) =~= v@);
                    assert(seq![str_tok(pos as int, pos + 1)] + seq![str_tok(pos + 1, pos + 2)]
                        =~= seq![str_tok(pos as int, pos + 1), str_tok(pos + 1, pos + 2)]);
                }
                Some((q, v))
            },
            None => None,
        }
    } else {
        None
    }
}

pub open spec fn spec_initial_word_chars(s: Seq<char>, p: int) -> Parse {
    if spec_non_lt_char(s, p) is Some {
        spec_non_lt_char(s, p)
    } else {
        spec_lt_with_non_lt_char(s, p)
    }
}

/// The start of a word: one character other than the marker, or the marker
/// followed by one such character.
pub fn initial_word_chars(src: &Source, pos: usize) -> (r: Step)
    requires
        src.wf(),
        pos <= src@.len(),
    ensures
        step_is(src@, r, spec_initial_word_chars(src@, pos as int)),
{
    match non_lt_char(src, pos) {
        Some(r) => Some(r),
        None => lt_with_non_lt_char(src, pos),
    }
}

pub open spec fn spec_following_word_chars(s: Seq<char>, p: int) -> Parse {
    let e = scan(s, p, CharClass::WordChar);
    if e > p {
        Some((e, seq![str_tok(p, e)]))
    } else {
        None
    }
}

/// The rest of a word, markers included, as one token.
pub fn following_word_chars(src: &Source, pos: usize) -> (r: Step)
    requires
        src.wf(),
        pos <= src@.len(),
    ensures
        step_is(src@, r, spec_following_word_chars(src@, pos as int)),
{
    let e = scan_class(src, pos, CharClass::WordChar);
    if e > pos {
        Some((e, one_token(src, TokenKind::String, pos, e)))
    } else {
        None
    }
}

pub open spec fn spec_single_character_word(s: Seq<char>, p: int) -> Parse {
    if 0 <= p < s.len() && !is_break(s[p]) {
        Some((p + 1, seq![str_tok(p, p + 1)]))
    } else {
        None
    }
}

/// One word character, markers included.
pub fn single_character_word(src: &Source, pos: usize) -> (r: Step)
    requires
        src.wf(),
        pos <= src@.len(),
    ensures
        step_is(src@, r, spec_single_character_word(src@, pos as int)),
{
    if pos < src.len() && class_test(src.char_at(pos), CharClass::WordChar) {
        Some((pos + 1, one_token(src, TokenKind::String, pos, pos + 1)))
    } else {
        None
    }
}

pub open spec fn spec_word_without_leading_dash(s: Seq<char>, p: int) -> Parse {
    if 0 <= p < s.len() && !is_break(s[p]) && s[p] != '-' {
        match spec_following_word_chars(s, p + 1) {
            Some((e, t)) => Some((e, seq![str_tok(p, p + 1)] + t)),
            None => None,
        }
    } else {
        None
    }
}

/// A word of two or more characters whose first character is not a dash:
/// that character, markers included, then the rest of the run as one token.
pub fn word_without_leading_dash(src: &Source, pos: usize) -> (r: Step)
    requires
        src.wf(),
        pos <= src@.len(),
    ensures
        step_is(src@, r, spec_word_without_leading_dash(src@, pos as int)),
{
    if pos < src.len() && class_test(src.char_at(pos), CharClass::WordChar) && src.char_at(pos)
        != '-' {
        match following_word_chars(src, pos + 1) {
            Some((e, rest)) => {
                let mut v = one_token(src, TokenKind::String, pos, pos + 1);
                let ghost m = seq![str_tok(pos as int, pos + 1)];
                concat_into(
                    Ghost(src@),
                    &mut v,
                    rest,
                    Ghost(m),
                    Ghost(toks_of(spec_following_word_chars(src@, pos + 1))),
                );
                Some((e, v))
            },
            None => None,
        }
    } else {
        None
    }
}

/// Runs rule `b` where rule `a` stopped and joins their tokens.
pub open spec fn then(a: Parse, b: spec_fn(int) -> Parse) -> Parse {
    match a {
        Some((q, t)) => match b(q) {
            Some((r, u)) => Some((r, t + u)),
            None => None,
        },
        None => None,
    }
}

pub open spec fn spec_word_base(s: Seq<char>, p: int) -> Parse {
    then(spec_initial_word_chars(s, p), |q: int| spec_following_word_chars(s, q))
}

/// The start of a word followed by at least one more word character.
pub fn word_base(src: &Source, pos: usize) -> (r: Step)
    requires
        src.wf(),
        pos <= src@.len(),
    ensures
        step_is(src@, r, spec_word_base(src@, pos as int)),
{
    match initial_word_chars(src, pos) {
        Some((q, mut first)) => {
            proof {
                assert(q <= src@.len());
            }
            match following_word_chars(src, q) {
                Some((e, mut rest)) => {
                    let ghost f = first@;
                    let ghost g = rest@;
                    first.append(&mut rest);
                    proof {
                        let (_, m1) = spec_initial_word_chars(src@, pos as int)->0;
                        let (_, m2) = spec_following_word_chars(src@, q as int)->0;
                        lemma_realizes_concat(src@, f, m1, g, m2);
                    }
                    Some((e, first))
                },
                None => None,
            }
        },
        None => None,
    }
}

/// A word as the grammar splits it: the longest run of word characters at
/// `p`. A leading marker `<` is a token of its own and the rest of the run is
/// split again by this rule; otherwise a run of one character is one token,
/// and a longer run is its first character and then the rest.
pub open spec fn spec_word(s: Seq<char>, p: int) -> Parse
    decreases s.len() - p,
{
    let e = scan(s, p, CharClass::WordChar);
    if !(0 <= p < s.len() && e > p) {
        None
    } else if s[p] == '<' && e > p + 1 {
        match spec_word(s, p + 1) {
            Some((q, t)) => Some((q, seq![str_tok(p, p + 1)] + t)),
            None => None,
        }
    } else if e == p + 1 {
        Some((e, seq![str_tok(p, e)]))
    } else {
        Some((e, seq![str_tok(p, p + 1), str_tok(p + 1, e)]))
    }
}

/// How the parts of a word relate to the word rule.
proof fn lemma_word_cases(s: Seq<char>, p: int)
    requires
        0 <= p <= s.len(),
    ensures
        spec_word_base(s, p) is Some ==> spec_word(s, p) == spec_word_base(s, p),
        spec_word_base(s, p) is None && !(char_is(s, p, '<') && p + 1 < s.len() && !is_break(
            s[p + 1],
        )) ==> spec_word(s, p) == spec_single_character_word(s, p),
        char_is(s, p, '<') && p + 1 < s.len() && !is_break(s[p + 1]) ==> spec_word(s, p) == match spec_word(s, p + 1) {
            Some((q, t)) => Some((q, seq![str_tok(p, p + 1)] + t)),
            None => None,
        },
{
    lemma_scan(s, p, CharClass::WordChar);
    if p < s.len() {
        lemma_scan(s, p + 1, CharClass::WordChar);
        if !is_break(s[p]) {
            assert(scan(s, p, CharClass::WordChar) == scan(s, p + 1, CharClass::WordChar));
        }
    }
    if p + 1 < s.len() {
        lemma_scan(s, p + 2, CharClass::WordChar);
        if !is_break(s[p]) && !is_break(s[p + 1]) {
            assert(scan(s, p + 1, CharClass::WordChar) == scan(s, p + 2, CharClass::WordChar));
        }
    }
    if spec_word_base(s, p) is Some {
        if spec_non_lt_char(s, p) is Some {
            assert(seq![str_tok(p, p + 1)] + seq![
                str_tok(p + 1, scan(s, p + 1, CharClass::WordChar)),
            ] =~= seq![str_tok(p, p + 1), str_tok(p + 1, scan(s, p, CharClass::WordChar))]);
        } else {
            let e = scan(s, p, CharClass::WordChar);
            assert(seq![str_tok(p, p + 1), str_tok(p + 1, p + 2)] + seq![str_tok(p + 2, e)]
                =~= seq![str_tok(p, p + 1)] + seq![str_tok(p + 1, p + 2), str_tok(p + 2, e)]);
        }
    }
}

/// The word at `pos` (see `spec_word`).
pub fn word(src: &Source, pos: usize) -> (r: Step)
    requires
        src.wf(),
        pos <= src@.len(),
    ensures
        step_is(src@, r, spec_word(src@, pos as int)),
    decreases src@.len() - pos,
{
    proof {
        lemma_word_cases(src@, pos as int);
    }
    match word_base(src, pos) {
        Some(r) => Some(r),
        None => {
            if has_char(src, pos, '<') && pos + 1 < src.len() && class_test(
                src.char_at(pos + 1),
                CharClass::WordChar,
            ) {
                match word(src, pos + 1) {
                    Some((q, mut rest)) => {
                        let mut v = one_token(src, TokenKind::String, pos, pos + 1);
                        let ghost f = v@;
                        let ghost g = rest@;
                        v.append(&mut rest);
                        proof {
                            let (_, m) = spec_word(src@, pos + 1)->0;
                            lemma_realizes_concat(
                                src@,
                                f,
                                seq![str_tok(pos as int, pos + 1)],
                                g,
                                m,
                            );
                        }
                        Some((q, v))
                    },
                    None => None,
                }
            } else {
                single_character_word(src, pos)
            }
        },
    }
}

/// A word starts wherever a word character stands.
pub proof fn lemma_word_some(s: Seq<char>, p: int)
    requires
        0 <= p < s.len(),
        !is_break(s[p]),
    ensures
        spec_word(s, p) is Some,
    decreases s.len() - p,
{
    lemma_scan(s, p, CharClass::WordChar);
    if p + 1 < s.len() {
        lemma_scan(s, p + 1, CharClass::WordChar);
    }
    if s[p] == '<' && scan(s, p, CharClass::WordChar) > p + 1 {
        assert(scan(s, p, CharClass::WordChar) == scan(s, p + 1, CharClass::WordChar));
        lemma_word_some(s, p + 1);
    }
}

/// Word decomposition: a run of two or more word characters that does not
/// start with the marker `<` becomes exactly two tokens, its first character
/// and the rest of the run.
pub proof fn lemma_word_decomposition(s: Seq<char>, p: int)
    requires
        0 <= p < s.len(),
        s[p] != '<',
        scan(s, p, CharClass::WordChar) - p >= 2,
    ensures
        spec_word(s, p) == Some(
            (
                scan(s, p, CharClass::WordChar),
                seq![str_tok(p, p + 1), str_tok(p + 1, scan(s, p, CharClass::WordChar))],
            ),
        ),
{
}

/// Marker splitting: a run of two or more word characters that starts with
/// the marker `<` yields the marker as a token of its own, then the tokens of
/// the rest of the run split by the same rule.
pub proof fn lemma_marker_splitting(s: Seq<char>, p: int)
    requires
        0 <= p < s.len(),
        s[p] == '<',
        scan(s, p, CharClass::WordChar) - p >= 2,
    ensures
        spec_word(s, p + 1) is Some,
        spec_word(s, p) == Some(
            (
                end_of(spec_word(s, p + 1)),
                seq![str_tok(p, p + 1)] + toks_of(spec_word(s, p + 1)),
            ),
        ),
        s.subrange(p, p + 1) == seq!['<'],
{
    lemma_scan(s, p, CharClass::WordChar);
    lemma_scan(s, p + 1, CharClass::WordChar);
    assert(scan(s, p, CharClass::WordChar) == scan(s, p + 1, CharClass::WordChar));
    lemma_word_some(s, p + 1);
    assert(s.subrange(p, p + 1) =~= seq!['<']);
}

/// The tokens of a word lie in order between its start and its end.
pub proof fn lemma_word_ordered(s: Seq<char>, p: int)
    ensures
        spec_word(s, p) matches Some((e, t)) ==> spans_ordered(t, p, e),
    decreases s.len() - p,
{
    if 0 <= p < s.len() {
        lemma_scan(s, p, CharClass::WordChar);
        let e = scan(s, p, CharClass::WordChar);
        if s[p] == '<' && e > p + 1 {
            lemma_word_ordered(s, p + 1);
            lemma_word_bound(s, p + 1);
            if let Some((q, t)) = spec_word(s, p + 1) {
                lemma_spans_concat(seq![str_tok(p, p + 1)], p, p + 1, t, q);
            }
        }
    }
}

/// Where a word stops lies after its start and within the text.
pub proof fn lemma_word_bound(s: Seq<char>, p: int)
    ensures
        spec_word(s, p) matches Some((e, _)) ==> p < e <= s.len(),
    decreases s.len() - p,
{
    if 0 <= p < s.len() {
        lemma_scan(s, p, CharClass::WordChar);
        if s[p] == '<' && scan(s, p, CharClass::WordChar) > p + 1 {
            lemma_word_bound(s, p + 1);
        }
    }
}

/// Scanning inside `s.subrange(p, b)` stops where scanning `s` stops, or at `b`.
pub proof fn lemma_scan_sub(s: Seq<char>, p: int, b: int, x: int, k: CharClass)
    requires
        0 <= p <= x <= b <= s.len(),
    ensures
        scan(s.subrange(p, b), x - p, k) == (if scan(s, x, k) < b {
            scan(s, x, k)
        } else {
            b
        }) - p,
    decreases b - x,
{
    let sub = s.subrange(p, b);
    lemma_scan(s, x, k);
    if x < b {
        assert(sub[x - p] == s[x]);
        if in_class(s[x], k) {
            lemma_scan_sub(s, p, b, x + 1, k);
            assert(x + 1 - p == x - p + 1);
        }
    }
}

/// A word that ends by `b` is read the same inside `s.subrange(p, b)`.
pub proof fn lemma_word_sub(s: Seq<char>, p: int, b: int, q: int)
    requires
        0 <= p <= q <= b <= s.len(),
        spec_word(s, q) is Some,
        end_of(spec_word(s, q)) <= b,
    ensures
        spec_word(s.subrange(p, b), q - p) == Some(
            (end_of(spec_word(s, q)) - p, shift(toks_of(spec_word(s, q)), -p)),
        ),
    decreases s.len() - q,
{
    let sub = s.subrange(p, b);
    lemma_scan(s, q, CharClass::WordChar);
    lemma_scan_sub(s, p, b, q, CharClass::WordChar);
    let e = scan(s, q, CharClass::WordChar);
    lemma_word_bound(s, q);
    assert(sub[q - p] == s[q]);
    if s[q] == '<' && e > q + 1 {
        lemma_word_bound(s, q + 1);
        assert(scan(s, q, CharClass::WordChar) == scan(s, q + 1, CharClass::WordChar));
        lemma_word_sub(s, p, b, q + 1);
        assert(q + 1 - p == q - p + 1);
        lemma_shift_concat(seq![str_tok(q, q + 1)], toks_of(spec_word(s, q + 1)), -p);
        assert(shift(seq![str_tok(q, q + 1)], -p) =~= seq![str_tok(q - p, q - p + 1)]);
    } else if e == q + 1 {
        assert(shift(seq![str_tok(q, e)], -p) =~= seq![str_tok(q - p, e - p)]);
    } else {
        assert(shift(seq![str_tok(q, q + 1), str_tok(q + 1, e)], -p) =~= seq![
            str_tok(q - p, q - p + 1),
            str_tok(q - p + 1, e - p),
        ]);
    }
}

/// A word has tokens, and its last token ends where the word ends.
pub proof fn lemma_word_last(s: Seq<char>, p: int)
    ensures
        spec_word(s, p) matches Some((e, t)) ==> t.len() > 0 && t.last().end == e,
    decreases s.len() - p,
{
    if 0 <= p < s.len() {
        if s[p] == '<' && scan(s, p, CharClass::WordChar) > p + 1 {
            lemma_word_last(s, p + 1);
        }
    }
}

} // verus!

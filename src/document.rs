//! The document assembler: a document is a run of sections. `nom_parse`
//! stops at the first section that does not match; `tokenize` records the
//! failure, resynchronizes after the next blank-line separator, and goes on.
use vstd::prelude::*;
use vstd::string::StringSliceAdditionalSpecFns;

use crate::lexer::{CharClass, concat_into, empty_line, lemma_scan, scan, scan_class, spec_empty_line};
use crate::paragraph::lemma_empty_line_bound;
use crate::section::{
    ErrorKind, lemma_body_bound, lemma_header_bound, lemma_section_ordered, section,
    spec_section,
    spec_section_body, spec_section_header,
};
use crate::source::{Source, byte_offset};
use crate::token::{
    NomToken, Tok, byte_spans_ordered, lemma_byte_spans_ordered, lemma_spans_concat,
    lemma_spans_widen, lemma_texts_at_spans, realizes_all, spans_ordered, text_at_span,
};

verus! {

/// A parse failure: the byte offset where it was found and what was expected there.
#[derive(PartialEq, Eq, Structural, Clone, Copy, Debug)]
pub struct ParseError {
    pub offset: usize,
    pub kind: ErrorKind,
}

/// The tokens of a document and the failures met on the way.
#[derive(Debug, PartialEq)]
pub struct Document {
    pub tokens: Vec<NomToken>,
    pub errors: Vec<ParseError>,
}

/// A description of what the grammar expected where an error of kind `k` is found.
pub open spec fn expectation(k: ErrorKind) -> Seq<char> {
    match k {
        ErrorKind::ExpectedSection => "a section header"@,
        ErrorKind::UnrecognizedKeyword => "a recognized section keyword"@,
        ErrorKind::MalformedAttribute => "a key/value or boolean attribute"@,
        ErrorKind::MissingSeparator => "a line break or a blank line"@,
        ErrorKind::EmptyBody => "at least one paragraph"@,
    }
}

impl ErrorKind {
    /// What the grammar expected where this error was found.
    pub fn expected(&self) -> (r: &'static str)
        ensures
            r@ == expectation(*self),
    {
        match self {
            ErrorKind::ExpectedSection => "a section header",
            ErrorKind::UnrecognizedKeyword => "a recognized section keyword",
            ErrorKind::MalformedAttribute => "a key/value or boolean attribute",
            ErrorKind::MissingSeparator => "a line break or a blank line",
            ErrorKind::EmptyBody => "at least one paragraph",
        }
    }
}

/// The sections that follow one another from `p` on: where the last one
/// stops and their tokens.
pub open spec fn spec_sections(s: Seq<char>, p: int) -> (int, Seq<Tok>)
    decreases s.len() - p,
{
    match spec_section(s, p) {
        Ok((q, t)) => if p < q <= s.len() {
            let (e, u) = spec_sections(s, q);
            (e, t + u)
        } else {
            (p, seq![])
        },
        Err(_) => (p, seq![]),
    }
}

/// One or more sections from the start: the first failure if the first
/// section fails, else where the run of sections stops and their tokens.
pub open spec fn spec_nom_parse(s: Seq<char>) -> Result<(int, Seq<Tok>), (int, ErrorKind)> {
    match spec_section(s, 0) {
        Err(e) => Err(e),
        Ok(_) => Ok(spec_sections(s, 0)),
    }
}

/// Where parsing resumes after a failure at `p`: after the next blank-line
/// separator, or at the end of the text.
pub open spec fn resync(s: Seq<char>, p: int) -> int
    decreases s.len() - p,
{
    if !(0 <= p < s.len()) {
        s.len() as int
    } else {
        match spec_empty_line(s, p) {
            Some((e, _)) => e,
            None => resync(s, p + 1),
        }
    }
}

/// The tokens and the failures (position in characters, kind) of the
/// sections from `p` on. Whitespace before a section is skipped; a failed
/// section contributes its failure and no token, and parsing resumes at
/// `resync`.
pub open spec fn spec_document(s: Seq<char>, p: int) -> (Seq<Tok>, Seq<(int, ErrorKind)>)
    decreases s.len() - p,
{
    let w = scan(s, p, CharClass::AnyWs);
    if !(0 <= p && w < s.len()) {
        (seq![], seq![])
    } else {
        match spec_section(s, w) {
            Ok((q, t)) => if p < q <= s.len() {
                let (u, es) = spec_document(s, q);
                (t + u, es)
            } else {
                (t, seq![])
            },
            Err(e) => {
                let r = resync(s, w);
                if p < r <= s.len() {
                    let (u, es) = spec_document(s, r);
                    (u, seq![e] + es)
                } else {
                    (seq![], seq![e])
                }
            },
        }
    }
}

/// `es` are the failures `ms`, with their positions as byte offsets.
pub open spec fn errors_realize(
    s: Seq<char>,
    es: Seq<ParseError>,
    ms: Seq<(int, ErrorKind)>,
) -> bool {
    &&& es.len() == ms.len()
    &&& forall|i: int|
        0 <= i < es.len() ==> (#[trigger] es[i]).offset as int == byte_offset(s, ms[i].0)
            && es[i].kind == ms[i].1
}

pub proof fn lemma_section_bound(s: Seq<char>, p: int)
    requires
        0 <= p <= s.len(),
    ensures
        spec_section(s, p) matches Ok((e, _)) ==> p < e <= s.len(),
        spec_section(s, p) matches Err((q, _)) ==> p <= q <= s.len(),
{
    lemma_header_bound(s, p);
    if let Ok((a, pol, head)) = spec_section_header(s, p) {
        lemma_body_bound(s, a, pol, head);
        if let Ok((e, _)) = spec_section_body(s, a, pol, head) {
            lemma_empty_line_bound(s, e);
        }
    }
}

pub proof fn lemma_resync_bound(s: Seq<char>, p: int)
    requires
        0 <= p < s.len(),
    ensures
        p < resync(s, p) <= s.len(),
    decreases s.len() - p,
{
    lemma_empty_line_bound(s, p);
    if spec_empty_line(s, p) is None {
        if p + 1 < s.len() {
            lemma_resync_bound(s, p + 1);
        } else {
            assert(resync(s, p + 1) == s.len());
        }
    }
}

/// Where parsing resumes after a failure at `pos` (see `resync`).
fn resync_from(src: &Source, pos: usize) -> (r: usize)
    requires
        src.wf(),
        pos <= src@.len(),
    ensures
        r == resync(src@, pos as int),
{
    let n = src.len();
    let mut p = pos;
    while p < n
        invariant
            src.wf(),
            n == src@.len(),
            pos <= p <= n,
            resync(src@, p as int) == resync(src@, pos as int),
        decreases n - p,
    {
        match empty_line(src, p) {
            Some((e, _)) => {
                return e;
            },
            None => {},
        }
        p = p + 1;
    }
    n
}

/// Parses one or more sections from the start of `text` and stops at the
/// first that does not match. Yields the byte offset where it stopped and
/// the tokens, or the failure of the first section.
pub fn nom_parse(text: &str) -> (r: Result<(usize, Vec<NomToken>), ParseError>)
    ensures
        match spec_nom_parse(text@) {
            Ok((e, m)) => match r {
                Ok((b, ts)) => b as int == byte_offset(text@, e) && realizes_all(text@, ts@, m)
                    && byte_spans_ordered(ts@) && forall|i: int|
                    0 <= i < ts@.len() ==> text_at_span(text.spec_bytes(), #[trigger] ts@[i]),
                Err(_) => false,
            },
            Err((q, k)) => match r {
                Ok(_) => false,
                Err(err) => err.offset as int == byte_offset(text@, q) && err.kind == k,
            },
        },
{
    let src = Source::new(text);
    let ghost s = src@;
    proof {
        lemma_section_bound(s, 0);
    }
    let mut p: usize = 0;
    let mut toks: Vec<NomToken> = Vec::new();
    let ghost mut done: Seq<Tok> = seq![];
    match section(&src, 0) {
        Err((q, k)) => {
            return Err(ParseError { offset: src.offset(q), kind: k });
        },
        Ok(_) => {},
    }
    loop
        invariant
            src.wf(),
            s == src@,
            p <= s.len(),
            realizes_all(s, toks@, done),
            spec_sections(s, 0) == (spec_sections(s, p as int).0, done + spec_sections(
                s,
                p as int,
            ).1),
        ensures
            p <= s.len(),
            realizes_all(s, toks@, done),
            spec_sections(s, 0) == (p as int, done),
        decreases s.len() - p,
    {
        proof {
            lemma_section_bound(s, p as int);
        }
        match section(&src, p) {
            Ok((q, t)) => {
                if p < q && q <= src.len() {
                    let ghost mt = match spec_section(s, p as int) {
                        Ok((_, m)) => m,
                        Err(_) => seq![],
                    };
                    concat_into(Ghost(s), &mut toks, t, Ghost(done), Ghost(mt));
                    proof {
                        assert(done + (mt + spec_sections(s, q as int).1) =~= (done + mt)
                            + spec_sections(s, q as int).1);
                        done = done + mt;
                    }
                    p = q;
                } else {
                    proof {
                        assert(done + seq![] =~= done);
                    }
                    break ;
                }
            },
            Err(_) => {
                proof {
                    assert(done + seq![] =~= done);
                }
                break ;
            },
        }
    }
    proof {
        lemma_sections_ordered(s, 0);
        lemma_spans_widen(done, 0, p as int, 0, s.len() as int);
        lemma_byte_spans_ordered(s, toks@, done);
        lemma_texts_at_spans(s, toks@, done);
    }
    Ok((src.offset(p), toks))
}

/// Tokenizes a whole document. A section that fails to match yields no
/// token; its failure is recorded and tokenizing resumes after the next
/// blank-line separator.
pub fn tokenize(text: &str) -> (r: Document)
    ensures
        realizes_all(text@, r.tokens@, spec_document(text@, 0).0),
        errors_realize(text@, r.errors@, spec_document(text@, 0).1),
        byte_spans_ordered(r.tokens@),
        forall|i: int|
            0 <= i < r.tokens@.len() ==> text_at_span(text.spec_bytes(), #[trigger] r.tokens@[i]),
{
    let src = Source::new(text);
    let ghost s = src@;
    let n = src.len();
    let mut p: usize = 0;
    let mut tokens: Vec<NomToken> = Vec::new();
    let mut errors: Vec<ParseError> = Vec::new();
    let ghost mut done: Seq<Tok> = seq![];
    let ghost mut failed: Seq<(int, ErrorKind)> = seq![];
    loop
        invariant
            src.wf(),
            s == src@,
            n == s.len(),
            p <= n,
            realizes_all(s, tokens@, done),
            errors_realize(s, errors@, failed),
            spec_document(s, 0) == (done + spec_document(s, p as int).0, failed
                + spec_document(s, p as int).1),
        ensures
            realizes_all(s, tokens@, done),
            errors_realize(s, errors@, failed),
            spec_document(s, 0) == (done, failed),
        decreases n - p,
    {
        proof {
            lemma_scan(s, p as int, CharClass::AnyWs);
        }
        let w = scan_class(&src, p, CharClass::AnyWs);
        if w >= n {
            proof {
                assert(done + seq![] =~= done);
                assert(failed + seq![] =~= failed);
            }
            break ;
        }
        proof {
            lemma_section_bound(s, w as int);
            lemma_resync_bound(s, w as int);
        }
        match section(&src, w) {
            Ok((q, t)) => {
                let ghost mt = match spec_section(s, w as int) {
                    Ok((_, m)) => m,
                    Err(_) => seq![],
                };
                concat_into(Ghost(s), &mut tokens, t, Ghost(done), Ghost(mt));
                proof {
                    assert(done + (mt + spec_document(s, q as int).0) =~= (done + mt)
                        + spec_document(s, q as int).0);
                    done = done + mt;
                }
                p = q;
            },
            Err((at, k)) => {
                let e = ParseError { offset: src.offset(at), kind: k };
                let ghost before = errors@;
                errors.push(e);
                let r = resync_from(&src, w);
                proof {
                    assert(failed + (seq![(at as int, k)] + spec_document(s, r as int).1) =~= (
                    failed + seq![(at as int, k)]) + spec_document(s, r as int).1);
                    assert(errors@ =~= before.push(e));
                    let nf = failed + seq![(at as int, k)];
                    assert forall|i: int| 0 <= i < errors@.len() implies (#[trigger] errors@[i]).offset
                        as int == byte_offset(s, nf[i].0) && errors@[i].kind == nf[i].1 by {
                        if i < before.len() {
                            assert(errors@[i] == before[i]);
                            assert(nf[i] == failed[i]);
                        } else {
                            assert(errors@[i] == e);
                            assert(nf[i] == (at as int, k));
                        }
                    }
                    failed = nf;
                }
                p = r;
            },
        }
    }
    proof {
        lemma_document_ordered(s, 0);
        lemma_byte_spans_ordered(s, tokens@, done);
        lemma_texts_at_spans(s, tokens@, done);
    }
    Document { tokens, errors }
}

pub proof fn lemma_sections_ordered(s: Seq<char>, p: int)
    requires
        0 <= p <= s.len(),
    ensures
        p <= spec_sections(s, p).0 <= s.len(),
        spans_ordered(spec_sections(s, p).1, p, spec_sections(s, p).0),
    decreases s.len() - p,
{
    lemma_section_bound(s, p);
    lemma_section_ordered(s, p);
    if let Ok((q, t)) = spec_section(s, p) {
        if p < q <= s.len() {
            lemma_sections_ordered(s, q);
            lemma_spans_concat(t, p, q, spec_sections(s, q).1, spec_sections(s, q).0);
        }
    }
}

pub proof fn lemma_document_ordered(s: Seq<char>, p: int)
    requires
        0 <= p <= s.len(),
    ensures
        spans_ordered(spec_document(s, p).0, p, s.len() as int),
    decreases s.len() - p,
{
    lemma_scan(s, p, CharClass::AnyWs);
    let w = scan(s, p, CharClass::AnyWs);
    if w < s.len() {
        lemma_section_bound(s, w);
        lemma_section_ordered(s, w);
        match spec_section(s, w) {
            Ok((q, t)) => {
                lemma_spans_widen(t, w, q, p, q);
                if p < q <= s.len() {
                    lemma_document_ordered(s, q);
                    lemma_spans_concat(t, p, q, spec_document(s, q).0, s.len() as int);
                } else {
                    lemma_spans_widen(t, p, q, p, s.len() as int);
                }
            },
            Err(_) => {
                let r = resync(s, w);
                if p < r <= s.len() {
                    lemma_document_ordered(s, r);
                    lemma_spans_widen(spec_document(s, r).0, r, s.len() as int, p, s.len() as int);
                }
            },
        }
    }
}

} // verus!

//! The attribute grammar: `-- key: value` and `-- flag` lines.
use vstd::prelude::*;

use crate::lexer::{
    CharClass, blank_line, char_is, concat_into, dashes, has_char, lemma_scan,
    one_token, scan, scan_class, spec_blank_line, spec_dashes,
};
use crate::source::Source;
use crate::token::{
    Parse, Step, Tok, TokenKind, lemma_spans_concat, lemma_spans_widen, spans_ordered, step_is, tok,
    toks_of,
};

verus! {

pub open spec fn comment(a: int, b: int) -> Tok {
    tok(TokenKind::Comment, a, b)
}

/// A key/value attribute: the decorator, a key running up to the first colon
/// or newline, the colon, optional spaces or tabs, and a value running to the
/// end of the line. Key, colon and value are comments; key and value are
/// not empty.
pub open spec fn spec_key_value_attribute(s: Seq<char>, p: int) -> Parse {
    match spec_dashes(s, p) {
        Some((q, d)) => {
            let k = scan(s, q, CharClass::KeyChar);
            let v = scan(s, k + 1, CharClass::HSpace);
            let e = scan(s, v, CharClass::LineChar);
            if k > q && char_is(s, k, ':') && e > v {
                Some((e, d + seq![comment(q, k), comment(k, k + 1), comment(v, e)]))
            } else {
                None
            }
        },
        None => None,
    }
}

/// A boolean attribute: the decorator and a flag name running to the end of
/// the line, with no colon on it.
pub open spec fn spec_boolean_attribute(s: Seq<char>, p: int) -> Parse {
    match spec_dashes(s, p) {
        Some((q, d)) => {
            let k = scan(s, q, CharClass::KeyChar);
            if k > q && !char_is(s, k, ':') {
                Some((k, d + seq![comment(q, k)]))
            } else {
                None
            }
        },
        None => None,
    }
}

/// An attribute: the key/value form where it matches, else the boolean form.
pub open spec fn spec_attribute(s: Seq<char>, p: int) -> Parse {
    if spec_key_value_attribute(s, p) is Some {
        spec_key_value_attribute(s, p)
    } else {
        spec_boolean_attribute(s, p)
    }
}

/// Where an attribute line ends: after its newline, if it has one.
pub open spec fn after_line(s: Seq<char>, q: int) -> int {
    match spec_blank_line(s, q) {
        Some((b, _)) => b,
        None => q,
    }
}

/// One or more attribute lines.
pub open spec fn spec_attributes(s: Seq<char>, p: int) -> Parse
    decreases s.len() - p,
{
    match spec_attribute(s, p) {
        None => None,
        Some((q, t)) => {
            let b = after_line(s, q);
            if p < b <= s.len() {
                match spec_attributes(s, b) {
                    Some((e, u)) => Some((e, t + u)),
                    None => Some((b, t)),
                }
            } else {
                Some((b, t))
            }
        },
    }
}

/// The key/value attribute at `pos` (see `spec_key_value_attribute`).
pub fn key_value_attribute(src: &Source, pos: usize) -> (r: Step)
    requires
        src.wf(),
        pos <= src@.len(),
    ensures
        step_is(src@, r, spec_key_value_attribute(src@, pos as int)),
{
    match dashes(src, pos) {
        Some((q, mut toks)) => {
            proof {
                lemma_scan(src@, pos + 2, CharClass::HSpace);
            }
            let k = scan_class(src, q, CharClass::KeyChar);
            if k > q && has_char(src, k, ':') {
                let v = scan_class(src, k + 1, CharClass::HSpace);
                let e = scan_class(src, v, CharClass::LineChar);
                if e > v {
                    let ghost d = toks_of(spec_dashes(src@, pos as int));
                    let ghost m1 = seq![comment(q as int, k as int)];
                    let ghost m2 = seq![comment(k as int, k + 1)];
                    let ghost m3 = seq![comment(v as int, e as int)];
                    concat_into(
                        Ghost(src@),
                        &mut toks,
                        one_token(src, TokenKind::Comment, q, k),
                        Ghost(d),
                        Ghost(m1),
                    );
                    concat_into(
                        Ghost(src@),
                        &mut toks,
                        one_token(src, TokenKind::Comment, k, k + 1),
                        Ghost(d + m1),
                        Ghost(m2),
                    );
                    concat_into(
                        Ghost(src@),
                        &mut toks,
                        one_token(src, TokenKind::Comment, v, e),
                        Ghost(d + m1 + m2),
                        Ghost(m3),
                    );
                    proof {
                        assert(d + m1 + m2 + m3 =~= d + seq![
                            comment(q as int, k as int),
                            comment(k as int, k + 1),
                            comment(v as int, e as int),
                        ]);
                    }
                    Some((e, toks))
                } else {
                    None
                }
            } else {
                None
            }
        },
        None => None,
    }
}

/// The boolean attribute at `pos` (see `spec_boolean_attribute`).
pub fn boolean_attribute(src: &Source, pos: usize) -> (r: Step)
    requires
        src.wf(),
        pos <= src@.len(),
    ensures
        step_is(src@, r, spec_boolean_attribute(src@, pos as int)),
{
    match dashes(src, pos) {
        Some((q, mut toks)) => {
            proof {
                lemma_scan(src@, pos + 2, CharClass::HSpace);
            }
            let k = scan_class(src, q, CharClass::KeyChar);
            if k > q && !has_char(src, k, ':') {
                let ghost d = toks_of(spec_dashes(src@, pos as int));
                let ghost m1 = seq![comment(q as int, k as int)];
                concat_into(
                    Ghost(src@),
                    &mut toks,
                    one_token(src, TokenKind::Comment, q, k),
                    Ghost(d),
                    Ghost(m1),
                );
                Some((k, toks))
            } else {
                None
            }
        },
        None => None,
    }
}

/// The attribute at `pos` (see `spec_attribute`).
pub fn attribute(src: &Source, pos: usize) -> (r: Step)
    requires
        src.wf(),
        pos <= src@.len(),
    ensures
        step_is(src@, r, spec_attribute(src@, pos as int)),
{
    match key_value_attribute(src, pos) {
        Some(r) => Some(r),
        None => boolean_attribute(src, pos),
    }
}

pub proof fn lemma_attribute_bound(s: Seq<char>, p: int)
    requires
        0 <= p <= s.len(),
    ensures
        spec_attribute(s, p) matches Some((e, _)) ==> p < e <= s.len(),
        spec_attribute(s, p) matches Some((e, _)) ==> p < after_line(s, e) <= s.len(),
{
    if spec_dashes(s, p) is Some {
        lemma_scan(s, p + 2, CharClass::HSpace);
        let q = scan(s, p + 2, CharClass::HSpace);
        lemma_scan(s, q, CharClass::KeyChar);
        let k = scan(s, q, CharClass::KeyChar);
        if char_is(s, k, ':') {
            lemma_scan(s, k + 1, CharClass::HSpace);
            lemma_scan(s, scan(s, k + 1, CharClass::HSpace), CharClass::LineChar);
        }
        if let Some((e, _)) = spec_attribute(s, p) {
            lemma_scan(s, e, CharClass::HSpace);
        }
    }
}

/// One or more attribute lines, each followed by its newline where it has one.
pub fn attributes(src: &Source, pos: usize) -> (r: Step)
    requires
        src.wf(),
        pos <= src@.len(),
    ensures
        step_is(src@, r, spec_attributes(src@, pos as int)),
    decreases src@.len() - pos,
{
    match attribute(src, pos) {
        None => None,
        Some((q, mut toks)) => {
            proof {
                lemma_attribute_bound(src@, pos as int);
            }
            let b = match blank_line(src, q) {
                Some((b, _)) => b,
                None => q,
            };
            if pos < b && b <= src.len() {
                match attributes(src, b) {
                    Some((e, rest)) => {
                        concat_into(
                            Ghost(src@),
                            &mut toks,
                            rest,
                            Ghost(toks_of(spec_attribute(src@, pos as int))),
                            Ghost(toks_of(spec_attributes(src@, b as int))),
                        );
                        Some((e, toks))
                    },
                    None => Some((b, toks)),
                }
            } else {
                Some((b, toks))
            }
        },
    }
}

pub proof fn lemma_attributes_bound(s: Seq<char>, p: int)
    requires
        0 <= p <= s.len(),
    ensures
        spec_attributes(s, p) matches Some((e, _)) ==> p < e <= s.len(),
    decreases s.len() - p,
{
    lemma_attribute_bound(s, p);
    if let Some((q, _)) = spec_attribute(s, p) {
        let b = after_line(s, q);
        if p < b <= s.len() {
            lemma_attributes_bound(s, b);
        }
    }
}

pub proof fn lemma_attribute_ordered(s: Seq<char>, p: int)
    requires
        0 <= p <= s.len(),
    ensures
        spec_attribute(s, p) matches Some((e, t)) ==> spans_ordered(t, p, e),
{
    if let Some((q, d)) = spec_dashes(s, p) {
        lemma_scan(s, p + 2, CharClass::HSpace);
        lemma_scan(s, q, CharClass::KeyChar);
        let k = scan(s, q, CharClass::KeyChar);
        if char_is(s, k, ':') {
            lemma_scan(s, k + 1, CharClass::HSpace);
            let v = scan(s, k + 1, CharClass::HSpace);
            lemma_scan(s, v, CharClass::LineChar);
            let e = scan(s, v, CharClass::LineChar);
            let m = seq![comment(q, k), comment(k, k + 1), comment(v, e)];
            if k > q && e > v {
                assert(spans_ordered(m, q, e));
                lemma_spans_concat(d, p, q, m, e);
            }
        }
        if k > q {
            lemma_spans_concat(d, p, q, seq![comment(q, k)], k);
        }
    }
}

pub proof fn lemma_attributes_ordered(s: Seq<char>, p: int)
    requires
        0 <= p <= s.len(),
    ensures
        spec_attributes(s, p) matches Some((e, t)) ==> spans_ordered(t, p, e),
    decreases s.len() - p,
{
    lemma_attribute_ordered(s, p);
    lemma_attribute_bound(s, p);
    if let Some((q, t)) = spec_attribute(s, p) {
        let b = after_line(s, q);
        lemma_scan(s, q, CharClass::HSpace);
        lemma_spans_widen(t, p, q, p, b);
        if p < b <= s.len() {
            lemma_attributes_ordered(s, b);
            lemma_attributes_bound(s, b);
            if let Some((e, u)) = spec_attributes(s, b) {
                lemma_spans_concat(t, p, b, u, e);
            }
        }
    }
}

} // verus!

//! The paragraph assembler: words joined into paragraphs, paragraphs into
//! runs separated by blank lines, and list items.
use vstd::prelude::*;

use crate::lexer::{
    CharClass, char_is, has_char, lemma_scan_sub, lemma_word_bound, lemma_word_last,
    lemma_word_ordered, lemma_word_sub, is_hspace, lemma_realizes_concat, lemma_scan, scan, scan_class,
    empty_line, one_token, spec_empty_line, spec_word, spec_wordbreak, word, wordbreak,
};
use crate::source::Source;
use crate::token::{
    Parse, Step, Tok, TokenKind, end_of, lemma_shift_concat, lemma_spans_concat, realizes_all,
    shift, spans_ordered, step_is, tok, toks_of,
};

verus! {

/// `s` holds the decorator's two dashes at `p`.
pub open spec fn starts_with_decorator(s: Seq<char>, p: int) -> bool {
    char_is(s, p, '-') && char_is(s, p + 1, '-')
}

/// `s` holds a list bullet at `p`: a dash followed by a space or a tab.
pub open spec fn is_bullet(s: Seq<char>, p: int) -> bool {
    char_is(s, p, '-') && 0 <= p + 1 < s.len() && is_hspace(s[p + 1])
}

pub open spec fn spec_initial_paragraph_word(s: Seq<char>, p: int) -> Parse {
    if starts_with_decorator(s, p) {
        None
    } else {
        spec_word(s, p)
    }
}

/// The first word of a paragraph: any word that does not start with the
/// decorator `--`, so that a paragraph never swallows a header.
pub fn initial_paragraph_word(src: &Source, pos: usize) -> (r: Step)
    requires
        src.wf(),
        pos <= src@.len(),
    ensures
        step_is(src@, r, spec_initial_paragraph_word(src@, pos as int)),
{
    if has_char(src, pos, '-') && has_char(src, pos + 1, '-') {
        None
    } else {
        word(src, pos)
    }
}

/// The words that follow a word ending at `p`, each after a word break: where
/// they end and their tokens.
pub open spec fn spec_more_words(s: Seq<char>, p: int) -> (int, Seq<Tok>)
    decreases s.len() - p,
{
    match spec_wordbreak(s, p) {
        Some((q, _)) => match spec_word(s, q) {
            Some((e, t)) => if p < e <= s.len() {
                let (f, u) = spec_more_words(s, e);
                (f, t + u)
            } else {
                (p, seq![])
            },
            None => (p, seq![]),
        },
        None => (p, seq![]),
    }
}

/// A paragraph: a first word, then every further word that a word break
/// joins to it; trailing spaces or tabs are consumed.
pub open spec fn spec_paragraph(s: Seq<char>, p: int) -> Parse {
    match spec_initial_paragraph_word(s, p) {
        Some((q, t)) => {
            let (e, u) = spec_more_words(s, q);
            Some((scan(s, e, CharClass::HSpace), t + u))
        },
        None => None,
    }
}

proof fn lemma_more_words_bound(s: Seq<char>, p: int)
    requires
        0 <= p <= s.len(),
    ensures
        p <= spec_more_words(s, p).0 <= s.len(),
    decreases s.len() - p,
{
    match spec_wordbreak(s, p) {
        Some((q, _)) => match spec_word(s, q) {
            Some((e, t)) => if p < e <= s.len() {
                lemma_word_bound(s, q);
                lemma_more_words_bound(s, e);
            },
            None => {},
        },
        None => {},
    }
}

pub proof fn lemma_wordbreak_bound(s: Seq<char>, p: int)
    requires
        0 <= p <= s.len(),
    ensures
        spec_wordbreak(s, p) matches Some((e, _)) ==> p < e <= s.len(),
{
    lemma_scan(s, p, CharClass::HSpace);
    let q = scan(s, p, CharClass::HSpace);
    if char_is(s, q, '\n') {
        lemma_scan(s, q + 1, CharClass::HSpace);
    }
}

/// The paragraph at `pos` (see `spec_paragraph`).
pub fn paragraph(src: &Source, pos: usize) -> (r: Step)
    requires
        src.wf(),
        pos <= src@.len(),
    ensures
        step_is(src@, r, spec_paragraph(src@, pos as int)),
{
    match initial_paragraph_word(src, pos) {
        None => None,
        Some((q, mut toks)) => {
            let ghost s = src@;
            let ghost t0 = toks_of(spec_initial_paragraph_word(s, pos as int));
            let ghost mut done: Seq<Tok> = seq![];
            proof {
                lemma_word_bound(s, pos as int);
                assert(t0 + done =~= t0);
            }
            let mut p = q;
            loop
                invariant
                    src.wf(),
                    s == src@,
                    q <= p <= s.len(),
                    realizes_all(s, toks@, t0 + done),
                    spec_more_words(s, q as int) == (
                        spec_more_words(s, p as int).0,
                        done + spec_more_words(s, p as int).1,
                    ),
                ensures
                    q <= p <= s.len(),
                    realizes_all(s, toks@, t0 + done),
                    spec_more_words(s, q as int) == (p as int, done),
                decreases s.len() - p,
            {
                proof {
                    lemma_wordbreak_bound(s, p as int);
                }
                match wordbreak(src, p) {
                    Some((b, _)) => {
                        match word(src, b) {
                            Some((e, mut w)) => {
                                proof {
                                    lemma_word_bound(s, b as int);
                                }
                                if p < e && e <= src.len() {
                                    let ghost wm = toks_of(spec_word(s, b as int));
                                    let ghost before = toks@;
                                    let ghost g = w@;
                                    toks.append(&mut w);
                                    proof {
                                        lemma_realizes_concat(s, before, t0 + done, g, wm);
                                        assert(t0 + done + wm =~= t0 + (done + wm));
                                        assert(done + (wm + spec_more_words(s, e as int).1) =~= (
                                        done + wm) + spec_more_words(s, e as int).1);
                                        done = done + wm;
                                    }
                                    p = e;
                                } else {
                                    proof {
                                        assert(done + seq![] =~= done);
                                    }
                                    break ;
                                }
                            },
                            None => {
                                proof {
                                    assert(done + seq![] =~= done);
                                }
                                break ;
                            },
                        }
                    },
                    None => {
                        proof {
                            assert(done + seq![] =~= done);
                        }
                        break ;
                    },
                }
            }
            let end = scan_class(src, p, CharClass::HSpace);
            Some((end, toks))
        },
    }
}

/// A paragraph where one may start: inside a list item, a bullet starts the
/// next item instead.
pub open spec fn spec_paragraph_in(s: Seq<char>, p: int, in_list: bool) -> Parse {
    if in_list && is_bullet(s, p) {
        None
    } else {
        spec_paragraph(s, p)
    }
}

/// One or more paragraphs separated by blank-line separators. A separator
/// that no paragraph follows is left to the caller.
pub open spec fn spec_paragraph_run(s: Seq<char>, p: int, in_list: bool) -> Parse
    decreases s.len() - p,
{
    match spec_paragraph_in(s, p, in_list) {
        None => None,
        Some((q, t)) => match spec_empty_line(s, q) {
            Some((b, _)) => if p < b <= s.len() {
                match spec_paragraph_run(s, b, in_list) {
                    Some((e, u)) => Some((e, t + u)),
                    None => Some((q, t)),
                }
            } else {
                Some((q, t))
            },
            None => Some((q, t)),
        },
    }
}

pub open spec fn spec_paragraphs(s: Seq<char>, p: int) -> Parse {
    spec_paragraph_run(s, p, false)
}

pub proof fn lemma_paragraph_bound(s: Seq<char>, p: int)
    requires
        0 <= p <= s.len(),
    ensures
        spec_paragraph(s, p) matches Some((e, _)) ==> p < e <= s.len(),
{
    lemma_word_bound(s, p);
    if let Some((q, _)) = spec_initial_paragraph_word(s, p) {
        lemma_more_words_bound(s, q);
        lemma_scan(s, spec_more_words(s, q).0, CharClass::HSpace);
    }
}

pub proof fn lemma_empty_line_bound(s: Seq<char>, p: int)
    requires
        0 <= p <= s.len(),
    ensures
        spec_empty_line(s, p) matches Some((e, _)) ==> p < e <= s.len(),
{
    if char_is(s, p, '\n') {
        lemma_scan(s, p + 1, CharClass::HSpace);
        let q = scan(s, p + 1, CharClass::HSpace);
        if char_is(s, q, '\n') {
            lemma_scan(s, q + 1, CharClass::AnyWs);
        }
    }
}

pub proof fn lemma_paragraph_run_bound(s: Seq<char>, p: int, in_list: bool)
    requires
        0 <= p <= s.len(),
    ensures
        spec_paragraph_run(s, p, in_list) matches Some((e, _)) ==> p < e <= s.len(),
    decreases s.len() - p,
{
    lemma_paragraph_bound(s, p);
    if let Some((q, _)) = spec_paragraph_in(s, p, in_list) {
        lemma_empty_line_bound(s, q);
        if let Some((b, _)) = spec_empty_line(s, q) {
            if p < b <= s.len() {
                lemma_paragraph_run_bound(s, b, in_list);
            }
        }
    }
}

/// The paragraph run at `pos` (see `spec_paragraph_run`).
pub fn paragraph_run(src: &Source, pos: usize, in_list: bool) -> (r: Step)
    requires
        src.wf(),
        pos <= src@.len(),
    ensures
        step_is(src@, r, spec_paragraph_run(src@, pos as int, in_list)),
    decreases src@.len() - pos,
{
    let first = if in_list && has_char(src, pos, '-') && pos + 1 < src.len() && (src.char_at(
        pos + 1,
    ) == ' ' || src.char_at(pos + 1) == '\t') {
        None
    } else {
        paragraph(src, pos)
    };
    match first {
        None => None,
        Some((q, mut toks)) => {
            proof {
                lemma_paragraph_bound(src@, pos as int);
            }
            match empty_line(src, q) {
                Some((b, _)) => {
                    proof {
                        lemma_empty_line_bound(src@, q as int);
                    }
                    if pos < b && b <= src.len() {
                        match paragraph_run(src, b, in_list) {
                            Some((e, mut rest)) => {
                                let ghost f = toks@;
                                let ghost g = rest@;
                                toks.append(&mut rest);
                                proof {
                                    lemma_realizes_concat(
                                        src@,
                                        f,
                                        toks_of(spec_paragraph_in(src@, pos as int, in_list)),
                                        g,
                                        toks_of(spec_paragraph_run(src@, b as int, in_list)),
                                    );
                                }
                                Some((e, toks))
                            },
                            None => Some((q, toks)),
                        }
                    } else {
                        Some((q, toks))
                    }
                },
                None => Some((q, toks)),
            }
        },
    }
}

/// One or more paragraphs separated by blank-line separators.
pub fn paragraphs(src: &Source, pos: usize) -> (r: Step)
    requires
        src.wf(),
        pos <= src@.len(),
    ensures
        step_is(src@, r, spec_paragraphs(src@, pos as int)),
{
    paragraph_run(src, pos, false)
}

pub open spec fn spec_list_item(s: Seq<char>, p: int) -> Parse {
    if char_is(s, p, '-') && scan(s, p + 1, CharClass::HSpace) > p + 1 {
        match spec_paragraph_run(s, scan(s, p + 1, CharClass::HSpace), true) {
            Some((e, t)) => Some((e, seq![tok(TokenKind::ListDash, p, p + 1)] + t)),
            None => None,
        }
    } else {
        None
    }
}

/// A list item: a `-` bullet, spaces or tabs, then a paragraph run.
pub fn list_item(src: &Source, pos: usize) -> (r: Step)
    requires
        src.wf(),
        pos <= src@.len(),
    ensures
        step_is(src@, r, spec_list_item(src@, pos as int)),
{
    if has_char(src, pos, '-') {
        let q = scan_class(src, pos + 1, CharClass::HSpace);
        if q > pos + 1 {
            match paragraph_run(src, q, true) {
                Some((e, mut rest)) => {
                    let mut v = one_token(src, TokenKind::ListDash, pos, pos + 1);
                    let ghost f = v@;
                    let ghost g = rest@;
                    v.append(&mut rest);
                    proof {
                        lemma_realizes_concat(
                            src@,
                            f,
                            seq![tok(TokenKind::ListDash, pos as int, pos + 1)],
                            g,
                            toks_of(spec_paragraph_run(src@, q as int, true)),
                        );
                    }
                    Some((e, v))
                },
                None => None,
            }
        } else {
            None
        }
    } else {
        None
    }
}

/// One or more list items separated by blank-line separators.
pub open spec fn spec_list_run(s: Seq<char>, p: int) -> Parse
    decreases s.len() - p,
{
    match spec_list_item(s, p) {
        None => None,
        Some((q, t)) => match spec_empty_line(s, q) {
            Some((b, _)) => if p < b <= s.len() {
                match spec_list_run(s, b) {
                    Some((e, u)) => Some((e, t + u)),
                    None => Some((q, t)),
                }
            } else {
                Some((q, t))
            },
            None => Some((q, t)),
        },
    }
}

pub proof fn lemma_list_item_bound(s: Seq<char>, p: int)
    requires
        0 <= p <= s.len(),
    ensures
        spec_list_item(s, p) matches Some((e, _)) ==> p < e <= s.len(),
{
    if char_is(s, p, '-') {
        lemma_scan(s, p + 1, CharClass::HSpace);
        lemma_paragraph_run_bound(s, scan(s, p + 1, CharClass::HSpace), true);
    }
}

pub proof fn lemma_list_run_bound(s: Seq<char>, p: int)
    requires
        0 <= p <= s.len(),
    ensures
        spec_list_run(s, p) matches Some((e, _)) ==> p < e <= s.len(),
    decreases s.len() - p,
{
    lemma_list_item_bound(s, p);
    if let Some((q, _)) = spec_list_item(s, p) {
        lemma_empty_line_bound(s, q);
        if let Some((b, _)) = spec_empty_line(s, q) {
            if p < b <= s.len() {
                lemma_list_run_bound(s, b);
            }
        }
    }
}

/// The list-item run at `pos` (see `spec_list_run`).
pub fn list_run(src: &Source, pos: usize) -> (r: Step)
    requires
        src.wf(),
        pos <= src@.len(),
    ensures
        step_is(src@, r, spec_list_run(src@, pos as int)),
    decreases src@.len() - pos,
{
    match list_item(src, pos) {
        None => None,
        Some((q, mut toks)) => {
            proof {
                lemma_list_item_bound(src@, pos as int);
            }
            match empty_line(src, q) {
                Some((b, _)) => {
                    proof {
                        lemma_empty_line_bound(src@, q as int);
                    }
                    if pos < b && b <= src.len() {
                        match list_run(src, b) {
                            Some((e, mut rest)) => {
                                let ghost f = toks@;
                                let ghost g = rest@;
                                toks.append(&mut rest);
                                proof {
                                    lemma_realizes_concat(
                                        src@,
                                        f,
                                        toks_of(spec_list_item(src@, pos as int)),
                                        g,
                                        toks_of(spec_list_run(src@, b as int)),
                                    );
                                }
                                Some((e, toks))
                            },
                            None => Some((q, toks)),
                        }
                    } else {
                        Some((q, toks))
                    }
                },
                None => Some((q, toks)),
            }
        },
    }
}

pub proof fn lemma_more_words_ordered(s: Seq<char>, p: int)
    requires
        0 <= p <= s.len(),
    ensures
        spans_ordered(spec_more_words(s, p).1, p, spec_more_words(s, p).0),
    decreases s.len() - p,
{
    lemma_more_words_bound(s, p);
    lemma_wordbreak_bound(s, p);
    if let Some((q, _)) = spec_wordbreak(s, p) {
        if let Some((e, t)) = spec_word(s, q) {
            if p < e <= s.len() {
                lemma_word_ordered(s, q);
                lemma_word_bound(s, q);
                lemma_more_words_ordered(s, e);
                lemma_more_words_bound(s, e);
                lemma_spans_concat(t, p, e, spec_more_words(s, e).1, spec_more_words(s, e).0);
            }
        }
    }
}

pub proof fn lemma_paragraph_ordered(s: Seq<char>, p: int)
    requires
        0 <= p <= s.len(),
    ensures
        spec_paragraph(s, p) matches Some((e, t)) ==> spans_ordered(t, p, e),
{
    if let Some((q, t)) = spec_initial_paragraph_word(s, p) {
        lemma_word_ordered(s, p);
        lemma_word_bound(s, p);
        lemma_more_words_ordered(s, q);
        lemma_more_words_bound(s, q);
        let (f, u) = spec_more_words(s, q);
        lemma_scan(s, f, CharClass::HSpace);
        lemma_spans_concat(t, p, q, u, scan(s, f, CharClass::HSpace));
    }
}

pub proof fn lemma_paragraph_run_ordered(s: Seq<char>, p: int, in_list: bool)
    requires
        0 <= p <= s.len(),
    ensures
        spec_paragraph_run(s, p, in_list) matches Some((e, t)) ==> spans_ordered(t, p, e),
    decreases s.len() - p,
{
    lemma_paragraph_ordered(s, p);
    lemma_paragraph_bound(s, p);
    if let Some((q, t)) = spec_paragraph_in(s, p, in_list) {
        lemma_empty_line_bound(s, q);
        if let Some((b, _)) = spec_empty_line(s, q) {
            if p < b <= s.len() {
                lemma_paragraph_run_ordered(s, b, in_list);
                lemma_paragraph_run_bound(s, b, in_list);
                if let Some((e, u)) = spec_paragraph_run(s, b, in_list) {
                    lemma_spans_concat(t, p, q, u, e);
                }
            }
        }
    }
}

pub proof fn lemma_list_item_ordered(s: Seq<char>, p: int)
    requires
        0 <= p <= s.len(),
    ensures
        spec_list_item(s, p) matches Some((e, t)) ==> spans_ordered(t, p, e),
{
    if char_is(s, p, '-') {
        lemma_scan(s, p + 1, CharClass::HSpace);
        let q = scan(s, p + 1, CharClass::HSpace);
        lemma_paragraph_run_ordered(s, q, true);
        lemma_paragraph_run_bound(s, q, true);
        if let Some((e, t)) = spec_paragraph_run(s, q, true) {
            lemma_spans_concat(seq![tok(TokenKind::ListDash, p, p + 1)], p, q, t, e);
        }
    }
}

pub proof fn lemma_list_run_ordered(s: Seq<char>, p: int)
    requires
        0 <= p <= s.len(),
    ensures
        spec_list_run(s, p) matches Some((e, t)) ==> spans_ordered(t, p, e),
    decreases s.len() - p,
{
    lemma_list_item_ordered(s, p);
    lemma_list_item_bound(s, p);
    if let Some((q, t)) = spec_list_item(s, p) {
        lemma_empty_line_bound(s, q);
        if let Some((b, _)) = spec_empty_line(s, q) {
            if p < b <= s.len() {
                lemma_list_run_ordered(s, b);
                lemma_list_run_bound(s, b);
                if let Some((e, u)) = spec_list_run(s, b) {
                    lemma_spans_concat(t, p, q, u, e);
                }
            }
        }
    }
}

/// The words after a word end where their last token ends.
proof fn lemma_more_words_last(s: Seq<char>, p: int)
    requires
        0 <= p <= s.len(),
    ensures
        spec_more_words(s, p).1.len() == 0 ==> spec_more_words(s, p).0 == p,
        spec_more_words(s, p).1.len() > 0 ==> spec_more_words(s, p).1.last().end
            == spec_more_words(s, p).0,
    decreases s.len() - p,
{
    if let Some((q, _)) = spec_wordbreak(s, p) {
        if let Some((e, t)) = spec_word(s, q) {
            if p < e <= s.len() {
                lemma_word_last(s, q);
                lemma_more_words_last(s, e);
                let u = spec_more_words(s, e).1;
                if u.len() > 0 {
                    assert((t + u).last() == u.last());
                } else {
                    assert(t + u =~= t);
                }
            }
        }
    }
}

/// The words after a word ending at `x` are read the same inside
/// `s.subrange(p, b)`, where `b` is where they end.
proof fn lemma_more_words_sub(s: Seq<char>, p: int, b: int, x: int)
    requires
        0 <= p <= x <= b <= s.len(),
        spec_more_words(s, x).0 == b,
    ensures
        spec_more_words(s.subrange(p, b), x - p) == (b - p, shift(spec_more_words(s, x).1, -p)),
    decreases s.len() - x,
{
    let sub = s.subrange(p, b);
    lemma_wordbreak_bound(s, x);
    lemma_more_words_bound(s, x);
    lemma_scan(s, x, CharClass::HSpace);
    lemma_scan_sub(s, p, b, x, CharClass::HSpace);
    let q1 = scan(s, x, CharClass::HSpace);
    let stops = match spec_wordbreak(s, x) {
        Some((r, _)) => match spec_word(s, r) {
            Some((e, _)) => !(x < e <= s.len()),
            None => true,
        },
        None => true,
    };
    if stops {
        assert(x == b);
        assert(spec_more_words(s, x).1 =~= seq![]);
        assert(shift(seq![], -p) =~= seq![]);
        assert(scan(sub, x - p, CharClass::HSpace) == x - p);
    } else {
        let r = end_of(spec_wordbreak(s, x));
        let e = end_of(spec_word(s, r));
        let w = toks_of(spec_word(s, r));
        lemma_word_bound(s, r);
        lemma_more_words_bound(s, e);
        assert(r < e <= b);
        if q1 < b {
            assert(sub[q1 - p] == s[q1]);
        }
        if char_is(s, q1, '\n') {
            lemma_scan(s, q1 + 1, CharClass::HSpace);
            lemma_scan_sub(s, p, b, q1 + 1, CharClass::HSpace);
            assert(q1 + 1 - p == q1 - p + 1);
        }
        assert(spec_wordbreak(sub, x - p) == Some((r - p, seq![crate::token::ws_tok()])));
        lemma_word_sub(s, p, b, r);
        lemma_more_words_sub(s, p, b, e);
        lemma_shift_concat(w, spec_more_words(s, e).1, -p);
    }
}

/// Re-tokenizing a paragraph alone: read by itself, the text that a
/// paragraph's tokens span yields the same paragraph, with every token of
/// the same kind and its span moved back by the paragraph's start.
pub proof fn lemma_paragraph_retokenize(s: Seq<char>, p: int)
    requires
        0 <= p <= s.len(),
        spec_paragraph(s, p) is Some,
    ensures
        toks_of(spec_paragraph(s, p)).len() > 0,
        ({
            let t = toks_of(spec_paragraph(s, p));
            let b = t.last().end;
            &&& p < b <= s.len()
            &&& spec_paragraph(s.subrange(p, b), 0) == Some((b - p, shift(t, -p)))
            &&& forall|i: int| 0 <= i < t.len() ==> (#[trigger] shift(t, -p)[i]).kind == t[i].kind
        }),
{
    let q = end_of(spec_initial_paragraph_word(s, p));
    let t0 = toks_of(spec_initial_paragraph_word(s, p));
    lemma_word_bound(s, p);
    lemma_word_last(s, p);
    lemma_more_words_bound(s, q);
    lemma_more_words_last(s, q);
    let (f, u) = spec_more_words(s, q);
    let t = t0 + u;
    if u.len() > 0 {
        assert(t.last() == u.last());
    } else {
        assert(t =~= t0);
    }
    let b = f;
    assert(t.last().end == b);
    let sub = s.subrange(p, b);
    assert(sub[0] == s[p]);
    if p + 1 < b {
        assert(sub[1] == s[p + 1]);
    }
    assert(!(char_is(sub, 0, '-') && char_is(sub, 1, '-')));
    lemma_word_sub(s, p, b, p);
    lemma_more_words_sub(s, p, b, q);
    lemma_scan_sub(s, p, b, b, CharClass::HSpace);
    lemma_scan(s, b, CharClass::HSpace);
    lemma_shift_concat(t0, u, -p);
}

} // verus!

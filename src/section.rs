//! The section grammar: a `-- <keyword>` header, attribute lines, and a body
//! whose form the keyword decides.
use vstd::prelude::*;
use vstd::string::StrSliceExecFns;

use crate::attribute::{attributes, lemma_attributes_ordered, spec_attributes};
use crate::lexer::{
    CharClass, blank_line, char_is, concat_into, dashes, empty_line, has_char, lemma_scan,
    one_token, scan, scan_class, spec_blank_line, spec_dashes, spec_empty_line,
};
use crate::paragraph::{
    lemma_empty_line_bound, lemma_list_run_bound, lemma_list_run_ordered, lemma_paragraph_run_bound,
    lemma_paragraph_run_ordered, list_run,
    paragraphs, spec_list_run, spec_paragraphs,
};
use crate::source::Source;
use crate::token::{
    NomToken, Parse, Step, Tok, TokenKind, lemma_spans_concat, lemma_spans_widen, realizes_all,
    spans_ordered, step_is, tok, toks_of,
};

verus! {

/// What the body of a section holds, as its keyword decides.
#[derive(PartialEq, Eq, Structural, Clone, Copy, Debug)]
pub enum BodyPolicy {
    /// One or more paragraphs.
    Paragraphs,
    /// One or more paragraphs of raw content, split into words all the same.
    Code,
    /// Zero or more list items.
    List,
    /// Attributes only.
    Metadata,
}

/// Why a section could not be read.
#[derive(PartialEq, Eq, Structural, Clone, Copy, Debug)]
pub enum ErrorKind {
    /// No section header where a section must start.
    ExpectedSection,
    /// A header whose keyword is not in the table.
    UnrecognizedKeyword,
    /// A decorated line that is neither a key/value nor a boolean attribute.
    MalformedAttribute,
    /// A line break or a blank line that the grammar requires is missing.
    MissingSeparator,
    /// A body that must hold at least one paragraph holds none.
    EmptyBody,
}

/// The body policy of each recognized keyword.
pub open spec fn policy_of(k: Seq<char>) -> Option<BodyPolicy> {
    if k == "title"@ || k == "h1"@ || k == "h2"@ || k == "h3"@ || k == "h4"@ || k == "h5"@ || k
        == "h6"@ || k == "p"@ || k == "aside"@ || k == "blockquote"@ || k == "bookmark"@ || k
        == "footnote"@ || k == "hr"@ || k == "image"@ || k == "note"@ || k == "reference"@ || k
        == "subtitle"@ || k == "vimeo"@ || k == "warning"@ || k == "youtube"@ {
        Some(BodyPolicy::Paragraphs)
    } else if k == "code"@ || k == "css"@ || k == "pre"@ || k == "script"@ {
        Some(BodyPolicy::Code)
    } else if k == "list"@ || k == "notes"@ || k == "warnings"@ {
        Some(BodyPolicy::List)
    } else if k == "metadata"@ || k == "categories"@ || k == "group"@ {
        Some(BodyPolicy::Metadata)
    } else {
        None
    }
}

/// Whether the characters `[a, b)` spell `kw`.
fn spells(src: &Source, a: usize, b: usize, kw: &str) -> (r: bool)
    requires
        src.wf(),
        a <= b <= src@.len(),
    ensures
        r == (src@.subrange(a as int, b as int) == kw@),
{
    let n = kw.unicode_len();
    if b - a != n {
        return false;
    }
    let mut i: usize = 0;
    while i < n
        invariant
            src.wf(),
            a <= b <= src@.len(),
            b - a == n,
            n == kw@.len(),
            i <= n,
            forall|j: int| 0 <= j < i ==> src@[a + j] == kw@[j],
        decreases n - i,
    {
        if src.char_at(a + i) != kw.get_char(i) {
            assert(src@.subrange(a as int, b as int)[i as int] != kw@[i as int]);
            return false;
        }
        i = i + 1;
    }
    assert(src@.subrange(a as int, b as int) =~= kw@);
    true
}

/// The body policy of the keyword spelled by `[a, b)`.
pub fn keyword_policy(src: &Source, a: usize, b: usize) -> (r: Option<BodyPolicy>)
    requires
        src.wf(),
        a <= b <= src@.len(),
    ensures
        r == policy_of(src@.subrange(a as int, b as int)),
{
    if spells(src, a, b, "title") || spells(src, a, b, "h1") || spells(src, a, b, "h2") || spells(
        src,
        a,
        b,
        "h3",
    ) || spells(src, a, b, "h4") || spells(src, a, b, "h5") || spells(src, a, b, "h6") || spells(
        src,
        a,
        b,
        "p",
    ) || spells(src, a, b, "aside") || spells(src, a, b, "blockquote") || spells(
        src,
        a,
        b,
        "bookmark",
    ) || spells(src, a, b, "footnote") || spells(src, a, b, "hr") || spells(src, a, b, "image")
        || spells(src, a, b, "note") || spells(src, a, b, "reference") || spells(
        src,
        a,
        b,
        "subtitle",
    ) || spells(src, a, b, "vimeo") || spells(src, a, b, "warning") || spells(
        src,
        a,
        b,
        "youtube",
    ) {
        Some(BodyPolicy::Paragraphs)
    } else if spells(src, a, b, "code") || spells(src, a, b, "css") || spells(src, a, b, "pre")
        || spells(src, a, b, "script") {
        Some(BodyPolicy::Code)
    } else if spells(src, a, b, "list") || spells(src, a, b, "notes") || spells(
        src,
        a,
        b,
        "warnings",
    ) {
        Some(BodyPolicy::List)
    } else if spells(src, a, b, "metadata") || spells(src, a, b, "categories") || spells(
        src,
        a,
        b,
        "group",
    ) {
        Some(BodyPolicy::Metadata)
    } else {
        None
    }
}

/// A section's outcome in the model: where it stopped and its tokens, or
/// where and why it failed.
pub type SectionParse = Result<(int, Seq<Tok>), (int, ErrorKind)>;

/// A section's executable outcome, positions in characters.
pub type SectionStep = Result<(usize, Vec<NomToken>), (usize, ErrorKind)>;

pub open spec fn section_is(s: Seq<char>, r: SectionStep, m: SectionParse) -> bool {
    match m {
        Ok((q, ms)) => match r {
            Ok((p, ts)) => p as int == q && realizes_all(s, ts@, ms),
            Err(_) => false,
        },
        Err((q, k)) => match r {
            Ok(_) => false,
            Err((p, j)) => p as int == q && j == k,
        },
    }
}

/// A section header: the decorator, a keyword of the table, optional spaces
/// or tabs, and a newline. Yields where the next line starts, the keyword's
/// body policy, and the decorator and keyword tokens.
pub open spec fn spec_section_header(s: Seq<char>, p: int) -> Result<
    (int, BodyPolicy, Seq<Tok>),
    (int, ErrorKind),
> {
    match spec_dashes(s, p) {
        None => Err((p, ErrorKind::ExpectedSection)),
        Some((q, d)) => {
            let k = scan(s, q, CharClass::WordChar);
            match if k > q {
                policy_of(s.subrange(q, k))
            } else {
                None
            } {
                None => Err((q, ErrorKind::UnrecognizedKeyword)),
                Some(pol) => {
                    let h = scan(s, k, CharClass::HSpace);
                    if char_is(s, h, '\n') {
                        Ok((h + 1, pol, d + seq![tok(TokenKind::Class, q, k)]))
                    } else {
                        Err((h, ErrorKind::MissingSeparator))
                    }
                },
            }
        },
    }
}

/// The attribute block that starts at `a`: where it ends and its tokens.
pub open spec fn attribute_block(s: Seq<char>, a: int) -> (int, Seq<Tok>) {
    match spec_attributes(s, a) {
        Some((b, t)) => (b, t),
        None => (a, seq![]),
    }
}

/// A blank line, then any further whitespace: where the body starts.
pub open spec fn body_start(s: Seq<char>, b: int) -> Option<int> {
    match spec_blank_line(s, b) {
        Some((c, _)) => Some(scan(s, c, CharClass::AnyWs)),
        None => None,
    }
}

/// What follows a header whose next line starts at `a`: the attribute block,
/// then per policy a blank line and the body. `head` holds the header's tokens.
pub open spec fn spec_section_body(
    s: Seq<char>,
    a: int,
    pol: BodyPolicy,
    head: Seq<Tok>,
) -> SectionParse {
    let (b, at) = attribute_block(s, a);
    if spec_dashes(s, b) is Some {
        Err((b, ErrorKind::MalformedAttribute))
    } else {
        match pol {
            BodyPolicy::Metadata => match spec_blank_line(s, b) {
                Some((c, _)) => Ok((c, head + at)),
                None => Ok((b, head + at)),
            },
            BodyPolicy::List => match body_start(s, b) {
                None => Err((b, ErrorKind::MissingSeparator)),
                Some(c) => match spec_list_run(s, c) {
                    Some((e, t)) => Ok((e, head + at + t)),
                    None => Ok((c, head + at)),
                },
            },
            _ => match body_start(s, b) {
                None => Err((b, ErrorKind::MissingSeparator)),
                Some(c) => match spec_paragraphs(s, c) {
                    Some((e, t)) => Ok((e, head + at + t)),
                    None => Err((c, ErrorKind::EmptyBody)),
                },
            },
        }
    }
}

/// A whole section, followed by the blank-line separator if there is one.
pub open spec fn spec_section(s: Seq<char>, p: int) -> SectionParse {
    match spec_section_header(s, p) {
        Err(e) => Err(e),
        Ok((a, pol, head)) => match spec_section_body(s, a, pol, head) {
            Err(e) => Err(e),
            Ok((e, t)) => match spec_empty_line(s, e) {
                Some((f, _)) => Ok((f, t)),
                None => Ok((e, t)),
            },
        },
    }
}

/// A section whose keyword has policy `pol`, without the separator after it.
pub open spec fn spec_typed_section(s: Seq<char>, p: int, pol: BodyPolicy) -> Parse {
    match spec_section_header(s, p) {
        Ok((a, hp, head)) => if hp == pol {
            match spec_section_body(s, a, pol, head) {
                Ok((e, t)) => Some((e, t)),
                Err(_) => None,
            }
        } else {
            None
        },
        Err(_) => None,
    }
}

pub proof fn lemma_header_bound(s: Seq<char>, p: int)
    requires
        0 <= p <= s.len(),
    ensures
        spec_section_header(s, p) matches Ok((a, _, _)) ==> p < a <= s.len(),
        spec_section_header(s, p) matches Err((q, _)) ==> p <= q <= s.len(),
{
    if spec_dashes(s, p) is Some {
        lemma_scan(s, p + 2, CharClass::HSpace);
        let q = scan(s, p + 2, CharClass::HSpace);
        lemma_scan(s, q, CharClass::WordChar);
        lemma_scan(s, scan(s, q, CharClass::WordChar), CharClass::HSpace);
    }
}

pub proof fn lemma_attribute_block_bound(s: Seq<char>, a: int)
    requires
        0 <= a <= s.len(),
    ensures
        a <= attribute_block(s, a).0 <= s.len(),
{
    crate::attribute::lemma_attributes_bound(s, a);
}

pub proof fn lemma_body_bound(s: Seq<char>, a: int, pol: BodyPolicy, head: Seq<Tok>)
    requires
        0 <= a <= s.len(),
    ensures
        spec_section_body(s, a, pol, head) matches Ok((e, _)) ==> a <= e <= s.len(),
        spec_section_body(s, a, pol, head) matches Err((q, _)) ==> a <= q <= s.len(),
{
    lemma_attribute_block_bound(s, a);
    let b = attribute_block(s, a).0;
    lemma_scan(s, b, CharClass::HSpace);
    if let Some((c, _)) = spec_blank_line(s, b) {
        lemma_scan(s, c, CharClass::AnyWs);
        let c2 = scan(s, c, CharClass::AnyWs);
        lemma_list_run_bound(s, c2);
        lemma_paragraph_run_bound(s, c2, false);
    }
}

/// The section header at `pos` (see `spec_section_header`).
pub fn section_header(src: &Source, pos: usize) -> (r: Result<
    (usize, BodyPolicy, Vec<NomToken>),
    (usize, ErrorKind),
>)
    requires
        src.wf(),
        pos <= src@.len(),
    ensures
        match spec_section_header(src@, pos as int) {
            Ok((a, pol, m)) => match r {
                Ok((b, q, ts)) => b as int == a && q == pol && realizes_all(src@, ts@, m),
                Err(_) => false,
            },
            Err((a, k)) => r == Err::<(usize, BodyPolicy, Vec<NomToken>), (usize, ErrorKind)>(
                (a as usize, k),
            ),
        },
{
    proof {
        lemma_header_bound(src@, pos as int);
    }
    match dashes(src, pos) {
        None => Err((pos, ErrorKind::ExpectedSection)),
        Some((q, mut toks)) => {
            proof {
                lemma_scan(src@, pos + 2, CharClass::HSpace);
            }
            let k = scan_class(src, q, CharClass::WordChar);
            let policy = if k > q {
                keyword_policy(src, q, k)
            } else {
                None
            };
            match policy {
                None => Err((q, ErrorKind::UnrecognizedKeyword)),
                Some(pol) => {
                    let h = scan_class(src, k, CharClass::HSpace);
                    if has_char(src, h, '\n') {
                        let ghost d = toks_of(spec_dashes(src@, pos as int));
                        let ghost m = seq![tok(TokenKind::Class, q as int, k as int)];
                        concat_into(
                            Ghost(src@),
                            &mut toks,
                            one_token(src, TokenKind::Class, q, k),
                            Ghost(d),
                            Ghost(m),
                        );
                        Ok((h + 1, pol, toks))
                    } else {
                        Err((h, ErrorKind::MissingSeparator))
                    }
                },
            }
        },
    }
}

/// The part of a section after its header (see `spec_section_body`).
fn section_body(
    src: &Source,
    a: usize,
    pol: BodyPolicy,
    head: Vec<NomToken>,
    Ghost(mh): Ghost<Seq<Tok>>,
) -> (r: SectionStep)
    requires
        src.wf(),
        a <= src@.len(),
        realizes_all(src@, head@, mh),
    ensures
        section_is(src@, r, spec_section_body(src@, a as int, pol, mh)),
{
    proof {
        lemma_attribute_block_bound(src@, a as int);
    }
    let mut toks = head;
    let b = match attributes(src, a) {
        Some((b, at)) => {
            concat_into(
                Ghost(src@),
                &mut toks,
                at,
                Ghost(mh),
                Ghost(toks_of(spec_attributes(src@, a as int))),
            );
            b
        },
        None => {
            proof {
                assert(mh + seq![] =~= mh);
            }
            a
        },
    };
    let ghost mat = mh + attribute_block(src@, a as int).1;
    if dashes(src, b).is_some() {
        return Err((b, ErrorKind::MalformedAttribute));
    }
    match pol {
        BodyPolicy::Metadata => match blank_line(src, b) {
            Some((c, _)) => Ok((c, toks)),
            None => Ok((b, toks)),
        },
        _ => {
            let c = match blank_line(src, b) {
                Some((c, _)) => {
                    proof {
                        lemma_scan(src@, b as int, CharClass::HSpace);
                    }
                    scan_class(src, c, CharClass::AnyWs)
                },
                None => {
                    return Err((b, ErrorKind::MissingSeparator));
                },
            };
            if pol == BodyPolicy::List {
                match list_run(src, c) {
                    Some((e, t)) => {
                        concat_into(
                            Ghost(src@),
                            &mut toks,
                            t,
                            Ghost(mat),
                            Ghost(toks_of(spec_list_run(src@, c as int))),
                        );
                        Ok((e, toks))
                    },
                    None => Ok((c, toks)),
                }
            } else {
                match paragraphs(src, c) {
                    Some((e, t)) => {
                        concat_into(
                            Ghost(src@),
                            &mut toks,
                            t,
                            Ghost(mat),
                            Ghost(toks_of(spec_paragraphs(src@, c as int))),
                        );
                        Ok((e, toks))
                    },
                    None => Err((c, ErrorKind::EmptyBody)),
                }
            }
        },
    }
}

/// The section at `pos` (see `spec_section`): its body policy is looked up
/// from its keyword.
pub fn section(src: &Source, pos: usize) -> (r: SectionStep)
    requires
        src.wf(),
        pos <= src@.len(),
    ensures
        section_is(src@, r, spec_section(src@, pos as int)),
{
    proof {
        lemma_header_bound(src@, pos as int);
    }
    match section_header(src, pos) {
        Err(e) => Err(e),
        Ok((a, pol, head)) => {
            let ghost mh = match spec_section_header(src@, pos as int) {
                Ok((_, _, m)) => m,
                Err(_) => seq![],
            };
            proof {
                lemma_body_bound(src@, a as int, pol, mh);
            }
            match section_body(src, a, pol, head, Ghost(mh)) {
                Err(e) => Err(e),
                Ok((e, t)) => match empty_line(src, e) {
                    Some((f, _)) => Ok((f, t)),
                    None => Ok((e, t)),
                },
            }
        },
    }
}

/// A section whose keyword has policy `pol` (see `spec_typed_section`).
fn typed_section(src: &Source, pos: usize, pol: BodyPolicy) -> (r: Step)
    requires
        src.wf(),
        pos <= src@.len(),
    ensures
        step_is(src@, r, spec_typed_section(src@, pos as int, pol)),
{
    proof {
        lemma_header_bound(src@, pos as int);
    }
    match section_header(src, pos) {
        Err(_) => None,
        Ok((a, hp, head)) => {
            if hp != pol {
                return None;
            }
            let ghost mh = match spec_section_header(src@, pos as int) {
                Ok((_, _, m)) => m,
                Err(_) => seq![],
            };
            match section_body(src, a, pol, head, Ghost(mh)) {
                Err(_) => None,
                Ok((e, t)) => Some((e, t)),
            }
        },
    }
}

/// A section with a paragraph-run body (`title`, `h1`, `p`, `note`, ...).
pub fn paragraph_type_section(src: &Source, pos: usize) -> (r: Step)
    requires
        src.wf(),
        pos <= src@.len(),
    ensures
        step_is(src@, r, spec_typed_section(src@, pos as int, BodyPolicy::Paragraphs)),
{
    typed_section(src, pos, BodyPolicy::Paragraphs)
}

/// A section with a raw-content body (`code`, `css`, `pre`, `script`).
pub fn code_type_section(src: &Source, pos: usize) -> (r: Step)
    requires
        src.wf(),
        pos <= src@.len(),
    ensures
        step_is(src@, r, spec_typed_section(src@, pos as int, BodyPolicy::Code)),
{
    typed_section(src, pos, BodyPolicy::Code)
}

/// A section with a list-item body (`list`, `notes`, `warnings`).
pub fn list_type_section(src: &Source, pos: usize) -> (r: Step)
    requires
        src.wf(),
        pos <= src@.len(),
    ensures
        step_is(src@, r, spec_typed_section(src@, pos as int, BodyPolicy::List)),
{
    typed_section(src, pos, BodyPolicy::List)
}

/// A section of attributes only (`metadata`, `categories`, `group`).
pub fn metadata_type_section(src: &Source, pos: usize) -> (r: Step)
    requires
        src.wf(),
        pos <= src@.len(),
    ensures
        step_is(src@, r, spec_typed_section(src@, pos as int, BodyPolicy::Metadata)),
{
    typed_section(src, pos, BodyPolicy::Metadata)
}

pub proof fn lemma_header_ordered(s: Seq<char>, p: int)
    requires
        0 <= p <= s.len(),
    ensures
        spec_section_header(s, p) matches Ok((a, _, h)) ==> spans_ordered(h, p, a),
{
    lemma_header_bound(s, p);
    if let Some((q, d)) = spec_dashes(s, p) {
        lemma_scan(s, p + 2, CharClass::HSpace);
        lemma_scan(s, q, CharClass::WordChar);
        let k = scan(s, q, CharClass::WordChar);
        lemma_scan(s, k, CharClass::HSpace);
        if let Ok((a, _, h)) = spec_section_header(s, p) {
            lemma_spans_concat(d, p, q, seq![tok(TokenKind::Class, q, k)], a);
        }
    }
}

pub proof fn lemma_body_ordered(s: Seq<char>, lo: int, a: int, pol: BodyPolicy, head: Seq<Tok>)
    requires
        0 <= lo <= a <= s.len(),
        spans_ordered(head, lo, a),
    ensures
        spec_section_body(s, a, pol, head) matches Ok((e, t)) ==> spans_ordered(t, lo, e),
{
    lemma_attribute_block_bound(s, a);
    lemma_attributes_ordered(s, a);
    let (b, at) = attribute_block(s, a);
    lemma_spans_concat(head, lo, a, at, b);
    lemma_scan(s, b, CharClass::HSpace);
    lemma_spans_widen(head + at, lo, b, lo, s.len() as int);
    if let Some((c, _)) = spec_blank_line(s, b) {
        lemma_spans_widen(head + at, lo, b, lo, c);
        lemma_scan(s, c, CharClass::AnyWs);
        let c2 = scan(s, c, CharClass::AnyWs);
        lemma_spans_widen(head + at, lo, b, lo, c2);
        lemma_list_run_ordered(s, c2);
        lemma_list_run_bound(s, c2);
        lemma_paragraph_run_ordered(s, c2, false);
        lemma_paragraph_run_bound(s, c2, false);
        if let Some((e, t)) = spec_list_run(s, c2) {
            lemma_spans_concat(head + at, lo, c2, t, e);
        }
        if let Some((e, t)) = spec_paragraphs(s, c2) {
            lemma_spans_concat(head + at, lo, c2, t, e);
        }
    }
}

pub proof fn lemma_section_ordered(s: Seq<char>, p: int)
    requires
        0 <= p <= s.len(),
    ensures
        spec_section(s, p) matches Ok((e, t)) ==> spans_ordered(t, p, e),
{
    lemma_header_ordered(s, p);
    lemma_header_bound(s, p);
    if let Ok((a, pol, head)) = spec_section_header(s, p) {
        lemma_body_ordered(s, p, a, pol, head);
        lemma_body_bound(s, a, pol, head);
        if let Ok((e, t)) = spec_section_body(s, a, pol, head) {
            lemma_empty_line_bound(s, e);
            if let Some((f, _)) = spec_empty_line(s, e) {
                lemma_spans_widen(t, p, e, p, f);
            }
        }
    }
}

} // verus!

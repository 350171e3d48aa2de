//! The document being tokenized: its characters, and the byte offset at
//! which each character starts in the UTF-8 text.
use vstd::prelude::*;
use vstd::std_specs::iter::IteratorSpec;
use vstd::string::StringSliceAdditionalSpecFns;
use vstd::utf8::{encode_scalar, encode_utf8, char_is_scalar};

verus! {

/// Byte offset of the character at index `i` of `s` in the UTF-8 encoding of `s`.
pub open spec fn byte_offset(s: Seq<char>, i: int) -> int {
    encode_utf8(s.take(i)).len() as int
}

/// Encoding a concatenation encodes each part.
pub proof fn lemma_encode_concat(a: Seq<char>, b: Seq<char>)
    ensures
        encode_utf8(a + b) == encode_utf8(a) + encode_utf8(b),
    decreases a.len(),
{
    if a.len() == 0 {
        assert(a + b =~= b);
        assert(encode_utf8(a) =~= Seq::<u8>::empty());
        assert(encode_utf8(a) + encode_utf8(b) =~= encode_utf8(b));
    } else {
        lemma_encode_concat(a.drop_first(), b);
        assert((a + b).drop_first() =~= a.drop_first() + b);
        assert((a + b)[0] == a[0]);
        assert(encode_utf8(a + b) =~= encode_scalar(a[0] as u32) + encode_utf8(a.drop_first() + b));
        assert(encode_utf8(a) =~= encode_scalar(a[0] as u32) + encode_utf8(a.drop_first()));
    }
}

/// Each character takes one to four bytes.
pub proof fn lemma_scalar_width(c: char)
    ensures
        1 <= encode_scalar(c as u32).len() <= 4,
{
    char_is_scalar(c);
}

/// The offset of the character after index `i` adds the width of character `i`.
pub proof fn lemma_byte_offset_step(s: Seq<char>, i: int)
    requires
        0 <= i < s.len(),
    ensures
        byte_offset(s, i + 1) == byte_offset(s, i) + encode_scalar(s[i] as u32).len(),
        byte_offset(s, i) < byte_offset(s, i + 1),
{
    assert(s.take(i + 1) =~= s.take(i) + seq![s[i]]);
    lemma_encode_concat(s.take(i), seq![s[i]]);
    assert(seq![s[i]].drop_first() =~= Seq::<char>::empty());
    assert(encode_utf8(Seq::<char>::empty()) =~= Seq::<u8>::empty());
    assert(encode_utf8(seq![s[i]]) =~= encode_scalar(s[i] as u32));
    lemma_scalar_width(s[i]);
}

/// Byte offsets grow strictly with the character index.
pub proof fn lemma_byte_offset_mono(s: Seq<char>, i: int, j: int)
    requires
        0 <= i <= j <= s.len(),
    ensures
        byte_offset(s, i) <= byte_offset(s, j),
        i < j ==> byte_offset(s, i) < byte_offset(s, j),
    decreases j - i,
{
    if i < j {
        lemma_byte_offset_mono(s, i, j - 1);
        lemma_byte_offset_step(s, j - 1);
    }
}

/// The encoding of the characters in `[a, b)` is the part of the encoding of
/// `s` between their byte offsets.
pub proof fn lemma_encode_subrange(s: Seq<char>, a: int, b: int)
    requires
        0 <= a <= b <= s.len(),
    ensures
        0 <= byte_offset(s, a) <= byte_offset(s, b) <= encode_utf8(s).len(),
        encode_utf8(s.subrange(a, b)) == encode_utf8(s).subrange(
            byte_offset(s, a),
            byte_offset(s, b),
        ),
{
    assert(s.take(b) =~= s.take(a) + s.subrange(a, b));
    lemma_encode_concat(s.take(a), s.subrange(a, b));
    assert(s =~= s.take(b) + s.skip(b));
    lemma_encode_concat(s.take(b), s.skip(b));
    assert(encode_utf8(s).subrange(byte_offset(s, a), byte_offset(s, b)) =~= encode_utf8(
        s.subrange(a, b),
    ));
}

/// The characters of a document, with the byte offset of each character
/// boundary.
pub struct Source {
    chars: Vec<char>,
    offsets: Vec<usize>,
}

impl View for Source {
    type V = Seq<char>;

    closed spec fn view(&self) -> Seq<char> {
        self.chars@
    }
}

/// Relies on `String::push`: appends one character to the string.
#[verifier::external_body]
fn push_char(s: &mut String, c: char)
    ensures
        final(s)@ == old(s)@.push(c),
{
    s.push(c);
}

/// The UTF-8 width of a character, in bytes.
fn utf8_width(c: char) -> (w: usize)
    ensures
        w == encode_scalar(c as u32).len(),
{
    proof {
        char_is_scalar(c);
    }
    let v = c as u32;
    if v <= 0x7F {
        1
    } else if v <= 0x7FF {
        2
    } else if v <= 0xFFFF {
        3
    } else {
        4
    }
}

impl Source {
    /// The document's positions fit in `usize`, and every offset is the byte
    /// offset of its character index.
    pub open spec fn wf(&self) -> bool {
        &&& self@.len() < usize::MAX
        &&& self.offsets_ok()
    }

    pub closed spec fn offsets_ok(&self) -> bool {
        &&& self.offsets@.len() == self.chars@.len() + 1
        &&& forall|i: int|
            0 <= i <= self.chars@.len() ==> #[trigger] self.offsets@[i] as int == byte_offset(
                self.chars@,
                i,
            )
    }

    /// Reads the characters of `text`.
    pub fn new(text: &str) -> (r: Source)
        ensures
            r.wf(),
            r@ == text@,
    {
        let total = text.as_bytes().len();
        let mut it = text.chars();
        let mut chars: Vec<char> = Vec::new();
        let mut offsets: Vec<usize> = Vec::new();
        let mut at: usize = 0;
        offsets.push(0);
        proof {
            assert(text@.take(0) =~= Seq::<char>::empty());
            assert(encode_utf8(Seq::<char>::empty()) =~= Seq::<u8>::empty());
        }
        loop
            invariant
                chars@ + it.remaining() == text@,
                offsets@.len() == chars@.len() + 1,
                forall|i: int|
                    0 <= i <= chars@.len() ==> #[trigger] offsets@[i] as int == byte_offset(
                        text@,
                        i,
                    ),
                at as int == byte_offset(text@, chars@.len() as int),
                text.spec_bytes().len() == total,
                text.spec_bytes() == encode_utf8(text@),
            ensures
                chars@ == text@,
                offsets@.len() == chars@.len() + 1,
                forall|i: int|
                    0 <= i <= chars@.len() ==> #[trigger] offsets@[i] as int == byte_offset(
                        text@,
                        i,
                    ),
            decreases text@.len() - chars@.len(),
        {
            let ghost before = it.remaining();
            let n = it.next();
            match n {
                Some(c) => {
                    proof {
                        let k = chars@.len() as int;
                        assert(before.len() > 0);
                        assert(text@[k] == c) by {
                            assert((chars@ + before)[k] == before[0]);
                        }
                        lemma_byte_offset_step(text@, k);
                        lemma_byte_offset_mono(text@, k + 1, text@.len() as int);
                        assert(text@.take(text@.len() as int) =~= text@);
                    }
                    at = at + utf8_width(c);
                    chars.push(c);
                    offsets.push(at);
                    proof {
                        assert(chars@ + it.remaining() =~= text@);
                    }
                },
                None => {
                    proof {
                        assert(chars@ =~= text@);
                    }
                    break ;
                },
            }
        }
        let bound = offsets.len();
        assert(bound == chars@.len() + 1);
        Source { chars, offsets }
    }

    /// The number of characters.
    pub fn len(&self) -> (n: usize)
        requires
            self.wf(),
        ensures
            n == self@.len(),
            n < usize::MAX,
    {
        let bounds = self.offsets.len();
        assert(bounds == self.chars@.len() + 1);
        self.chars.len()
    }

    /// The character at index `i`.
    pub fn char_at(&self, i: usize) -> (c: char)
        requires
            i < self@.len(),
        ensures
            c == self@[i as int],
    {
        self.chars[i]
    }

    /// The byte offset of character index `i`.
    pub fn offset(&self, i: usize) -> (o: usize)
        requires
            self.wf(),
            i <= self@.len(),
        ensures
            o == byte_offset(self@, i as int),
    {
        self.offsets[i]
    }

    /// The characters in `[a, b)` as a string.
    pub fn text(&self, a: usize, b: usize) -> (r: String)
        requires
            a <= b <= self@.len(),
        ensures
            r@ == self@.subrange(a as int, b as int),
    {
        let mut r = String::new();
        let mut i = a;
        while i < b
            invariant
                a <= i <= b,
                b <= self@.len(),
                r@ == self@.subrange(a as int, i as int),
            decreases b - i,
        {
            push_char(&mut r, self.chars[i]);
            proof {
                assert(r@ =~= self@.subrange(a as int, i + 1));
            }
            i = i + 1;
        }
        r
    }
}

} // verus!

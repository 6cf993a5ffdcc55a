//! Delimiter finders and a tokenizer built on them.
use vstd::prelude::*;
use vstd::string::StringSliceAdditionalSpecFns;
use vstd::utf8::{
    char_is_scalar, encode_scalar, encode_utf8, encode_utf8_valid_utf8, is_char_boundary,
    is_char_boundary_iff_not_is_continuation_byte, is_char_boundary_start_end_of_seq,
    is_continuation_byte,
};
use crate::utils::pieces::string::{char_bytes, find_bytes, first_occurrence, last_occurrence, occurs_at, rfind_bytes};

verus! {

/// A piece of a text found by a finder: its bytes and where they start in the text that
/// was searched.
#[derive(Debug, Clone, Copy)]
pub struct StringPiece<'a> {
    pub data: &'a str,
    /// Byte offset of the piece in the text it was found in.
    pub offset: usize,
}

impl<'a> StringPiece<'a> {
    /// The whole of `data`.
    pub fn new(data: &'a str) -> (r: Self)
        ensures
            r.data == data,
            r.offset == 0,
    {
        StringPiece { data, offset: 0 }
    }
}

/// Whether `r` holds the bytes `[start, end)` of `input` and records `start`.
pub open spec fn is_slice_of(r: StringPiece, input: &str, start: int, end: int) -> bool {
    &&& r.offset == start
    &&& r.data.spec_bytes() == input.spec_bytes().subrange(start, end)
}

/// Whether `r` is the empty piece at the end of `input`: what a finder gives back when the
/// delimiter is absent.
pub open spec fn is_end_of(r: StringPiece, input: &str) -> bool {
    is_slice_of(r, input, input.spec_bytes().len() as int, input.spec_bytes().len() as int)
}

/// The first byte of a non-empty UTF-8 encoding begins a character.
pub proof fn lemma_encoding_starts_with_leading_byte(cs: Seq<char>)
    requires
        cs.len() > 0,
    ensures
        !is_continuation_byte(encode_utf8(cs)[0]),
{
    char_is_scalar(cs[0]);
    let v = cs[0] as u32;
    assert(encode_utf8(cs) == encode_scalar(v) + encode_utf8(cs.drop_first()));
    let x = ((v >> 6) & 0x1F) as u8;
    let y = ((v >> 12) & 0x0F) as u8;
    let z = ((v >> 18) & 0x7) as u8;
    let w = (v & 0x7F) as u8;
    assert(w <= 0x7F) by (bit_vector)
        requires
            w == (v & 0x7F) as u8,
    ;
    assert(0xC0u8 | x >= 0xC0) by (bit_vector);
    assert(0xE0u8 | y >= 0xE0) by (bit_vector);
    assert(0xF0u8 | z >= 0xF0) by (bit_vector);
}

/// Where the UTF-8 encoding of a non-empty text occurs in a text, a character begins.
pub proof fn lemma_occurrence_starts_character(s: &str, cs: Seq<char>, k: int)
    requires
        cs.len() > 0,
        occurs_at(s.spec_bytes(), encode_utf8(cs), k),
    ensures
        is_char_boundary(s.spec_bytes(), k),
{
    let b = s.spec_bytes();
    let p = encode_utf8(cs);
    encode_utf8_valid_utf8(s@);
    lemma_encoding_starts_with_leading_byte(cs);
    assert(p.len() > 0);
    assert(b[k] == b.subrange(k, k + p.len())[0]);
    is_char_boundary_iff_not_is_continuation_byte(b, k);
}

/// The bytes `[start, end)` of `input`, both ends on character boundaries.
fn slice_between<'b>(input: &'b str, start: usize, end: usize) -> (r: StringPiece<'b>)
    requires
        start <= end,
        is_char_boundary(input.spec_bytes(), start as int),
        is_char_boundary(input.spec_bytes(), end as int),
    ensures
        is_slice_of(r, input, start as int, end as int),
{
    proof {
        encode_utf8_valid_utf8(input@);
    }
    let (_, rest) = input.split_at(start);
    proof {
        lemma_boundary_shifts(input.spec_bytes(), start as int, end as int);
    }
    let (piece, _) = rest.split_at(end - start);
    assert(piece.spec_bytes() =~= input.spec_bytes().subrange(start as int, end as int));
    StringPiece { data: piece, offset: start }
}

/// A character boundary lies within the text.
proof fn lemma_boundary_within(b: Seq<u8>, i: int)
    requires
        vstd::utf8::valid_utf8(b),
        is_char_boundary(b, i),
    ensures
        0 <= i <= b.len(),
{
}

/// The byte at `pos` of `input`, which must be a whole character.
fn byte_at<'b>(input: &'b str, pos: usize) -> (r: StringPiece<'b>)
    requires
        is_char_boundary(input.spec_bytes(), pos as int),
        is_char_boundary(input.spec_bytes(), pos + 1),
    ensures
        is_slice_of(r, input, pos as int, pos + 1),
{
    let n = input.as_bytes().len();
    proof {
        encode_utf8_valid_utf8(input@);
        lemma_boundary_within(input.spec_bytes(), pos + 1);
    }
    slice_between(input, pos, pos + 1)
}

/// The empty piece at the end of `input`.
fn end_of<'b>(input: &'b str) -> (r: StringPiece<'b>)
    ensures
        is_end_of(r, input),
{
    let n = input.as_bytes().len();
    proof {
        encode_utf8_valid_utf8(input@);
        is_char_boundary_start_end_of_seq(input.spec_bytes());
    }
    slice_between(input, n, n)
}

/// A character boundary at `end` of `b` is one of `b`'s suffix from `start` too.
proof fn lemma_boundary_shifts(b: Seq<u8>, start: int, end: int)
    requires
        vstd::utf8::valid_utf8(b),
        0 <= start <= end,
        is_char_boundary(b, start),
        is_char_boundary(b, end),
    ensures
        is_char_boundary(b.subrange(start, b.len() as int), end - start),
{
    let rest = b.subrange(start, b.len() as int);
    vstd::utf8::valid_utf8_split(b, start);
    if end - start < rest.len() {
        is_char_boundary_iff_not_is_continuation_byte(b, end);
        is_char_boundary_iff_not_is_continuation_byte(rest, end - start);
    } else {
        is_char_boundary_start_end_of_seq(rest);
    }
}

/// Finds a single character.
#[derive(Debug, Clone)]
pub struct SingleCharacter {
    pub delim: char,
}

impl SingleCharacter {
    pub fn new(delim: char) -> (r: Self)
        ensures
            r.delim == delim,
    {
        SingleCharacter { delim }
    }

    /// The first byte of the first occurrence of the delimiter, or the empty piece at the end
    /// when it does not occur. The byte after that occurrence's first must begin a character.
    pub fn find<'b>(&self, input: &'b str) -> (r: StringPiece<'b>)
        requires
            forall|k: usize|
                #[trigger] first_occurrence(input.spec_bytes(), encode_utf8(seq![self.delim]), 0, Some(k))
                    ==> is_char_boundary(input.spec_bytes(), k + 1),
        ensures
            first_occurrence(input.spec_bytes(), encode_utf8(seq![self.delim]), 0, None) ==> is_end_of(r, input),
            forall|k: usize|
                #[trigger] first_occurrence(input.spec_bytes(), encode_utf8(seq![self.delim]), 0, Some(k))
                    ==> is_slice_of(r, input, k as int, k + 1),
    {
        let p = char_bytes(self.delim);
        let found = find_bytes(input.as_bytes(), p.as_slice(), 0);
        match found {
            Some(pos) => {
                proof {
                    encode_utf8_valid_utf8(input@);
                    lemma_occurrence_starts_character(input, seq![self.delim], pos as int);
                    assert(is_char_boundary(input.spec_bytes(), pos + 1));
                }
                byte_at(input, pos)
            },
            None => end_of(input),
        }
    }
}

/// Finds a delimiter string.
#[derive(Debug, Clone)]
pub struct MultiCharacter<'a> {
    pub delimiter: StringPiece<'a>,
}

impl<'a> MultiCharacter<'a> {
    pub fn new(delimiter: StringPiece<'a>) -> (r: Self)
        ensures
            r.delimiter == delimiter,
    {
        MultiCharacter { delimiter }
    }

    /// The first occurrence of the delimiter, or the empty piece at the end when it does
    /// not occur (an occurrence of valid UTF-8 in valid UTF-8 always ends on a character
    /// boundary; the piece is checked to do so).
    pub fn find<'b>(&self, input: &'b str) -> (r: StringPiece<'b>)
        ensures
            ({
                let b = input.spec_bytes();
                let p = self.delimiter.data.spec_bytes();
                &&& first_occurrence(b, p, 0, None) ==> is_end_of(r, input)
                &&& forall|k: usize| #[trigger]
                    first_occurrence(b, p, 0, Some(k)) ==> if is_char_boundary(b, k + p.len()) {
                        is_slice_of(r, input, k as int, k + p.len())
                    } else {
                        is_end_of(r, input)
                    }
            }),
    {
        let p = self.delimiter.data.as_bytes();
        let found = find_bytes(input.as_bytes(), p, 0);
        match found {
            Some(pos) => {
                proof {
                    encode_utf8_valid_utf8(input@);
                    if p@.len() > 0 {
                        lemma_occurrence_starts_character(input, self.delimiter.data@, pos as int);
                        assert(is_char_boundary(input.spec_bytes(), pos as int));
                    } else {
                        assert(input.spec_bytes().subrange(0, 0) =~= p@);
                        assert(occurs_at(input.spec_bytes(), p@, 0));
                        assert(pos == 0);
                        assert(is_char_boundary(input.spec_bytes(), 0));
                    }
                }
                let n = input.as_bytes().len();
                assert(pos + p@.len() <= n);
                if input.is_char_boundary(pos + p.len()) {
                    slice_between(input, pos, pos + p.len())
                } else {
                    end_of(input)
                }
            },
            None => end_of(input),
        }
    }
}

/// Finds the first occurrence of a string and gives back its first byte.
#[derive(Debug, Clone)]
pub struct AnyCharacter<'a> {
    pub chars: StringPiece<'a>,
}

impl<'a> AnyCharacter<'a> {
    pub fn new(chars: StringPiece<'a>) -> (r: Self)
        ensures
            r.chars == chars,
    {
        AnyCharacter { chars }
    }

    /// The first byte of the first occurrence of `chars`, or the empty piece at the end when
    /// it does not occur. The byte after that occurrence's first must exist and begin a
    /// character.
    pub fn find<'b>(&self, input: &'b str) -> (r: StringPiece<'b>)
        requires
            forall|k: usize|
                #[trigger] first_occurrence(input.spec_bytes(), self.chars.data.spec_bytes(), 0, Some(k))
                    ==> is_char_boundary(input.spec_bytes(), k + 1),
        ensures
            first_occurrence(input.spec_bytes(), self.chars.data.spec_bytes(), 0, None) ==> is_end_of(r, input),
            forall|k: usize|
                #[trigger] first_occurrence(input.spec_bytes(), self.chars.data.spec_bytes(), 0, Some(k))
                    ==> is_slice_of(r, input, k as int, k + 1),
    {
        let p = self.chars.data.as_bytes();
        let found = find_bytes(input.as_bytes(), p, 0);
        match found {
            Some(pos) => {
                proof {
                    encode_utf8_valid_utf8(input@);
                    if p@.len() > 0 {
                        lemma_occurrence_starts_character(input, self.chars.data@, pos as int);
                        assert(is_char_boundary(input.spec_bytes(), pos as int));
                    } else {
                        assert(input.spec_bytes().subrange(0, 0) =~= p@);
                        assert(occurs_at(input.spec_bytes(), p@, 0));
                        assert(pos == 0);
                        assert(is_char_boundary(input.spec_bytes(), 0));
                    }
                    assert(is_char_boundary(input.spec_bytes(), pos + 1));
                }
                byte_at(input, pos)
            },
            None => end_of(input),
        }
    }
}

/// Finds the last occurrence of a string and gives back its first byte.
#[derive(Debug, Clone)]
pub struct AnyCharacterLast<'a> {
    pub chars: StringPiece<'a>,
}

impl<'a> AnyCharacterLast<'a> {
    pub fn new(chars: StringPiece<'a>) -> (r: Self)
        ensures
            r.chars == chars,
    {
        AnyCharacterLast { chars }
    }

    /// The first byte of the last occurrence of `chars`, or the empty piece at the end when
    /// it does not occur. The byte after that occurrence's first must exist and begin a
    /// character.
    pub fn find<'b>(&self, input: &'b str) -> (r: StringPiece<'b>)
        requires
            forall|k: usize|
                #[trigger] last_occurrence(
                    input.spec_bytes(),
                    self.chars.data.spec_bytes(),
                    input.spec_bytes().len() as int,
                    Some(k),
                ) ==> is_char_boundary(input.spec_bytes(), k + 1),
        ensures
            last_occurrence(
                input.spec_bytes(),
                self.chars.data.spec_bytes(),
                input.spec_bytes().len() as int,
                None,
            ) ==> is_end_of(r, input),
            forall|k: usize|
                #[trigger] last_occurrence(
                    input.spec_bytes(),
                    self.chars.data.spec_bytes(),
                    input.spec_bytes().len() as int,
                    Some(k),
                ) ==> is_slice_of(r, input, k as int, k + 1),
    {
        let a = input.as_bytes();
        let p = self.chars.data.as_bytes();
        let found = rfind_bytes(a, p, a.len());
        match found {
            Some(pos) => {
                proof {
                    encode_utf8_valid_utf8(input@);
                    if p@.len() > 0 {
                        lemma_occurrence_starts_character(input, self.chars.data@, pos as int);
                        assert(is_char_boundary(input.spec_bytes(), pos as int));
                    } else {
                        let n = input.spec_bytes().len() as int;
                        assert(input.spec_bytes().subrange(n, n) =~= p@);
                        assert(occurs_at(input.spec_bytes(), p@, n));
                        assert(pos == n);
                        is_char_boundary_start_end_of_seq(input.spec_bytes());
                        assert(is_char_boundary(input.spec_bytes(), pos as int));
                    }
                    assert(is_char_boundary(input.spec_bytes(), pos + 1));
                }
                byte_at(input, pos)
            },
            None => end_of(input),
        }
    }
}

/// The first byte of `b` from `from` on that the table marks, or `None`.
pub open spec fn first_marked(b: Seq<u8>, table: Seq<bool>, from: int, r: Option<usize>) -> bool {
    match r {
        Some(k) => from <= k < b.len() && table[b[k as int] as int] && forall|j: int|
            from <= j < k ==> !table[b[j] as int],
        None => forall|j: int| from <= j < b.len() ==> !table[b[j] as int],
    }
}

/// Finds the first byte marked in a table of 256 flags.
#[derive(Debug, Clone)]
pub struct BoolCharacter<'a> {
    pub delimiter: &'a [bool; 256],
}

impl<'a> BoolCharacter<'a> {
    pub fn new(delimiter: &'a [bool; 256]) -> (r: Self)
        ensures
            r.delimiter == delimiter,
    {
        BoolCharacter { delimiter }
    }

    /// The first marked byte, or the empty piece at the end when there is none. That byte
    /// must be a whole character.
    pub fn find<'b>(&self, input: &'b str) -> (r: StringPiece<'b>)
        requires
            forall|k: usize|
                #[trigger] first_marked(input.spec_bytes(), self.delimiter@, 0, Some(k))
                    ==> is_char_boundary(input.spec_bytes(), k as int) && is_char_boundary(
                    input.spec_bytes(),
                    k + 1,
                ),
        ensures
            first_marked(input.spec_bytes(), self.delimiter@, 0, None) ==> is_end_of(r, input),
            forall|k: usize|
                #[trigger] first_marked(input.spec_bytes(), self.delimiter@, 0, Some(k))
                    ==> is_slice_of(r, input, k as int, k + 1),
    {
        let a = input.as_bytes();
        let mut i: usize = 0;
        while i < a.len()
            invariant
                a@ == input.spec_bytes(),
                forall|j: int| 0 <= j < i ==> !self.delimiter@[a@[j] as int],
                forall|k: usize|
                    #[trigger] first_marked(input.spec_bytes(), self.delimiter@, 0, Some(k))
                        ==> is_char_boundary(input.spec_bytes(), k as int) && is_char_boundary(
                        input.spec_bytes(),
                        k + 1,
                    ),
            decreases a@.len() - i,
        {
            if self.delimiter[a[i] as usize] {
                assert(first_marked(input.spec_bytes(), self.delimiter@, 0, Some(i)));
                proof {
                    encode_utf8_valid_utf8(input@);
                }
                return byte_at(input, i);
            }
            i = i + 1;
        }
        end_of(input)
    }

    /// Marks every byte of `characters` in `out`.
    pub fn build(characters: &str, out: &mut [bool; 256])
        ensures
            forall|x: u8|
                #[trigger] final(out)@[x as int] == (old(out)@[x as int] || characters.spec_bytes().contains(x)),
    {
        let bytes = characters.as_bytes();
        let ghost orig = out@;
        let mut i: usize = 0;
        while i < bytes.len()
            invariant
                bytes@ == characters.spec_bytes(),
                out@.len() == 256,
                orig.len() == 256,
                i <= bytes@.len(),
                forall|x: u8|
                    #[trigger] out@[x as int] == (orig[x as int] || exists|j: int| 0 <= j < i && bytes@[j] == x),
            decreases bytes@.len() - i,
        {
            let c = bytes[i];
            out[c as usize] = true;
            proof {
                assert forall|x: u8|
                    #[trigger] out@[x as int] == (orig[x as int] || exists|j: int| 0 <= j < i + 1 && bytes@[j] == x) by {
                    if x == c {
                        assert(bytes@[i as int] == x);
                    }
                }
            }
            i = i + 1;
        }
    }
}

/// Number of leading bytes of `b` from `i` on that the table marks, plus `i`.
pub open spec fn skip_marked(b: Seq<u8>, t: Seq<bool>, i: int) -> int
    decreases b.len() - i,
{
    if 0 <= i < b.len() && t[b[i] as int] {
        skip_marked(b, t, i + 1)
    } else {
        i
    }
}

/// The end of `b` after dropping the marked bytes that end it, going no lower than `lo`.
pub open spec fn drop_marked_end(b: Seq<u8>, t: Seq<bool>, lo: int, j: int) -> int
    decreases j - lo,
{
    if j > lo && t[b[j - 1] as int] {
        drop_marked_end(b, t, lo, j - 1)
    } else {
        j
    }
}

/// Drops the bytes that `spaces` marks from both ends of `str`. Each cut must fall on a
/// character boundary.
pub fn trim<'a>(str: &'a str, spaces: &[bool; 256]) -> (r: &'a str)
    requires
        forall|j: int|
            1 <= j <= skip_marked(str.spec_bytes(), spaces@, 0) ==> #[trigger] is_char_boundary(
                str.spec_bytes(),
                j,
            ),
        forall|j: int|
            drop_marked_end(
                str.spec_bytes(),
                spaces@,
                skip_marked(str.spec_bytes(), spaces@, 0),
                str.spec_bytes().len() as int,
            ) <= j < str.spec_bytes().len() ==> #[trigger] is_char_boundary(str.spec_bytes(), j),
    ensures
        r.spec_bytes() == str.spec_bytes().subrange(
            skip_marked(str.spec_bytes(), spaces@, 0),
            drop_marked_end(
                str.spec_bytes(),
                spaces@,
                skip_marked(str.spec_bytes(), spaces@, 0),
                str.spec_bytes().len() as int,
            ),
        ),
{
    let a = str.as_bytes();
    let ghost b = a@;
    let mut start: usize = 0;
    while start < a.len() && spaces[a[start] as usize]
        invariant
            b == a@,
            b == str.spec_bytes(),
            start <= b.len(),
            skip_marked(b, spaces@, start as int) == skip_marked(b, spaces@, 0),
        decreases b.len() - start,
    {
        start = start + 1;
    }
    let mut end: usize = a.len();
    while end > start && spaces[a[end - 1] as usize]
        invariant
            b == a@,
            start <= end <= b.len(),
            start == skip_marked(b, spaces@, 0),
            drop_marked_end(b, spaces@, start as int, end as int) == drop_marked_end(
                b,
                spaces@,
                start as int,
                b.len() as int,
            ),
        decreases end,
    {
        end = end - 1;
    }
    proof {
        encode_utf8_valid_utf8(str@);
        is_char_boundary_start_end_of_seq(b);
        if start > 0 {
            assert(is_char_boundary(b, start as int));
        }
        if end < b.len() {
            assert(is_char_boundary(b, end as int));
        }
    }
    slice_between(str, start, end).data
}

/// Whether the finder's piece `found` on `text` is a delimiter that can be cut out: not
/// empty, inside the text, and on character boundaries.
pub open spec fn cuts(text: &str, found: StringPiece) -> bool {
    let b = text.spec_bytes();
    let off = found.offset as int;
    let flen = found.data.spec_bytes().len() as int;
    &&& flen > 0
    &&& off + flen <= b.len()
    &&& is_char_boundary(b, off)
    &&& is_char_boundary(b, off + flen)
}

/// One step of the tokenizer on `text`, whose delimiter piece the finder gave as `found`:
/// the token is the bytes before the delimiter and the rest those after it; without a
/// delimiter to cut, the token is the whole text and nothing is left.
pub open spec fn step_gives(text: &str, found: StringPiece, token: Seq<u8>, rest: Seq<u8>) -> bool {
    let b = text.spec_bytes();
    if cuts(text, found) {
        &&& token == b.subrange(0, found.offset as int)
        &&& rest == b.subrange(found.offset + found.data.spec_bytes().len(), b.len() as int)
    } else {
        &&& token == b
        &&& rest.len() == 0
    }
}

/// A stream of tokens: the pieces of a text between delimiters that `finder` finds.
pub struct TokenIter<'a, Find> {
    current: StringPiece<'a>,
    after: StringPiece<'a>,
    finder: Find,
    skip_empty: bool,
}

/// Whether the tokenizer with `finder` goes from token `cur0` and rest `rest0` to token `cur`
/// and rest `rest` in `n` steps, each taken from an empty token with text left, on the
/// finder's piece of that text.
pub open spec fn reaches<'a, Find: Fn(&'a str) -> StringPiece<'a>>(
    finder: Find,
    cur0: Seq<u8>,
    rest0: &'a str,
    cur: Seq<u8>,
    rest: &'a str,
    n: nat,
) -> bool
    decreases n,
{
    if n == 0 {
        cur == cur0 && rest == rest0
    } else {
        exists|pr: &'a str, found: StringPiece<'a>|
            #![trigger call_ensures(finder, (pr,), found)]
            reaches(finder, cur0, rest0, Seq::<u8>::empty(), pr, (n - 1) as nat) && pr.spec_bytes().len() != 0
                && call_ensures(finder, (pr,), found) && step_gives(pr, found, cur, rest.spec_bytes())
    }
}

impl<'a, Find> TokenIter<'a, Find> where Find: Fn(&'a str) -> StringPiece<'a> {
    /// Whether the finder may be called on any text.
    pub closed spec fn wf(&self) -> bool {
        forall|s: &'a str| self.finder.requires((s,))
    }

    /// The token that `next` gives back.
    pub closed spec fn current(&self) -> Seq<u8> {
        self.current.data.spec_bytes()
    }

    /// The text not yet cut into tokens.
    pub closed spec fn rest_text(&self) -> &'a str {
        self.after.data
    }

    /// The bytes not yet cut into tokens.
    pub open spec fn rest(&self) -> Seq<u8> {
        self.rest_text().spec_bytes()
    }

    /// The finder.
    pub closed spec fn spec_finder(&self) -> Find {
        self.finder
    }

    /// Whether empty tokens are skipped.
    pub closed spec fn skips_empty(&self) -> bool {
        self.skip_empty
    }

    /// Whether the tokenizer has no step left to take: empty tokens are kept, or the token is
    /// not empty, or no text is left.
    pub open spec fn settled(&self) -> bool {
        !self.skips_empty() || self.current().len() != 0 || self.rest().len() == 0
    }

    /// Tokens of `str`, cut where `construct` finds delimiters; `skip_empty` skips empty
    /// tokens. The first token is ready: starting from no token and the whole text, the
    /// steps are taken until one gives a non-empty token or the text is used up.
    pub fn new<S>(str: &'a str, construct: Find, skip_empty: bool) -> (r: Self)
        requires
            forall|s: &'a str| construct.requires((s,)),
        ensures
            r.wf(),
            r.spec_finder() == construct,
            r.skips_empty() == skip_empty,
            r.settled(),
            exists|n: nat| reaches(construct, Seq::<u8>::empty(), str, r.current(), r.rest_text(), n),
    {
        let after = StringPiece::new(str);
        let empty: &'a str = "";
        proof {
            reveal_strlit("");
        }
        let mut iter = TokenIter { current: StringPiece::new(empty), after, finder: construct, skip_empty };
        assert(iter.current() =~= Seq::<u8>::empty());
        iter.advance();
        iter
    }

    /// Takes steps while empty tokens are skipped, the token is empty and text is left: each
    /// cuts the next token off the rest at the finder's piece. Changes nothing when the
    /// tokenizer is settled.
    fn advance(&mut self)
        requires
            old(self).wf(),
        ensures
            final(self).wf(),
            final(self).spec_finder() == old(self).spec_finder(),
            final(self).skips_empty() == old(self).skips_empty(),
            final(self).settled(),
            old(self).settled() ==> final(self).current() == old(self).current() && final(self).rest_text() == old(self).rest_text(),
            exists|n: nat|
                reaches(old(self).spec_finder(), old(self).current(), old(self).rest_text(), final(self).current(), final(self).rest_text(), n),
    {
        let ghost f = self.finder;
        let ghost c_start = self.current();
        let ghost r_start = self.rest_text();
        let ghost mut steps: nat = 0;
        while self.skip_empty && self.current.data.as_bytes().len() == 0
            && self.after.data.as_bytes().len() != 0
            invariant
                self.wf(),
                self.finder == f,
                self.skip_empty == old(self).skip_empty,
                !(old(self).skips_empty() && old(self).current().len() == 0 && old(self).rest().len() != 0)
                    ==> self.current() == old(self).current() && self.rest_text() == old(self).rest_text(),
                reaches(f, c_start, r_start, self.current(), self.rest_text(), steps),
            decreases self.after.data.spec_bytes().len(),
        {
            let ghost pc = self.current();
            let ghost pr = self.rest_text();
            let found = (self.finder)(self.after.data);
            let rest = self.after.data;
            let n = rest.as_bytes().len();
            let off = found.offset;
            let flen = found.data.as_bytes().len();
            if flen == 0 || off > n || flen > n - off || !rest.is_char_boundary(off)
                || !rest.is_char_boundary(off + flen) {
                self.current = StringPiece::new(rest);
                let empty: &'a str = "";
                proof {
                    reveal_strlit("");
                }
                self.after = StringPiece::new(empty);
            } else {
                proof {
                    encode_utf8_valid_utf8(rest@);
                    is_char_boundary_start_end_of_seq(rest.spec_bytes());
                }
                self.current = slice_between(rest, 0, off);
                self.after = slice_between(rest, off + flen, n);
            }
            proof {
                assert(step_gives(pr, found, self.current(), self.rest()));
                assert(call_ensures(f, (pr,), found));
                assert(pc =~= Seq::<u8>::empty());
                assert(reaches(f, c_start, r_start, Seq::<u8>::empty(), pr, ((steps + 1) - 1) as nat));
                assert(reaches(f, c_start, r_start, self.current(), self.rest_text(), steps + 1));
                steps = steps + 1;
            }
        }
        assert(reaches(old(self).spec_finder(), old(self).current(), old(self).rest_text(), self.current(), self.rest_text(), steps));
    }

    /// The next token, or `None` when there are no more. The token given back is the one
    /// dropped; the next is then made ready as `new` makes the first: from no token and the
    /// rest of the text, steps until a non-empty token or the end of the text.
    pub fn next(&mut self) -> (r: Option<StringPiece<'a>>)
        requires
            old(self).wf(),
        ensures
            final(self).wf(),
            final(self).spec_finder() == old(self).spec_finder(),
            final(self).skips_empty() == old(self).skips_empty(),
            old(self).current().len() == 0 <==> r is None,
            r is None ==> final(self).current() == old(self).current() && final(self).rest_text() == old(self).rest_text(),
            r matches Some(t) ==> t.data.spec_bytes() == old(self).current() && final(self).settled() && exists|n: nat|
                reaches(old(self).spec_finder(), Seq::<u8>::empty(), old(self).rest_text(), final(self).current(), final(self).rest_text(), n),
    {
        if self.current.data.as_bytes().len() == 0 {
            None
        } else {
            let item = self.current;
            let empty: &'a str = "";
            proof {
                reveal_strlit("");
            }
            self.current = StringPiece::new(empty);
            assert(self.current() =~= Seq::<u8>::empty());
            let ghost r0 = self.rest_text();
            self.advance();
            proof {
                let n = choose|n: nat| reaches(self.spec_finder(), Seq::<u8>::empty(), r0, self.current(), self.rest_text(), n);
                assert(reaches(old(self).spec_finder(), Seq::<u8>::empty(), old(self).rest_text(), self.current(), self.rest_text(), n));
            }
            Some(item)
        }
    }
}

} // verus!

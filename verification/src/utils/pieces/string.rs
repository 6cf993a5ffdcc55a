//! A borrowed, possibly absent piece of text, addressed by byte offsets.
use vstd::prelude::*;
use vstd::string::{StrSliceExecFns, StringSliceAdditionalSpecFns};
use vstd::utf8::{char_is_scalar, decode_utf8, encode_scalar, encode_utf8, encode_utf8_decode_utf8, is_char_boundary};
use crate::sorting::{bytes_le, lemma_bytes_le_after_common_prefix, lemma_bytes_le_antisymmetric, lemma_bytes_le_total};

verus! {

/// The bytes of a piece: those of its text, or none when it has no text.
pub open spec fn piece_bytes(v: Option<Seq<u8>>) -> Seq<u8> {
    match v {
        Some(b) => b,
        None => Seq::empty(),
    }
}

/// The first `len` bytes of `b` as a piece, or no text when `len` does not end a character
/// (or lies past the end).
pub open spec fn prefix_piece(b: Seq<u8>, len: int) -> Option<Seq<u8>> {
    if is_char_boundary(b, len) {
        Some(b.subrange(0, len))
    } else {
        None
    }
}

/// The bytes of `b` from `start` on as a piece, or no text when `start` does not begin a
/// character (or lies past the end).
pub open spec fn suffix_piece(b: Seq<u8>, start: int) -> Option<Seq<u8>> {
    if is_char_boundary(b, start) {
        Some(b.subrange(start, b.len() as int))
    } else {
        None
    }
}

/// Three-way comparison of byte strings: -1, 0 or 1 as `a` comes before, equals or comes
/// after `b` lexicographically.
pub open spec fn bytes_compare(a: Seq<u8>, b: Seq<u8>) -> i32 {
    if a == b {
        0
    } else if bytes_le(a, b) {
        -1i32
    } else {
        1
    }
}

/// Three-way comparison of pieces: no text comes first, texts compare by their bytes.
pub open spec fn piece_compare(a: Option<Seq<u8>>, b: Option<Seq<u8>>) -> i32 {
    match (a, b) {
        (Some(x), Some(y)) => bytes_compare(x, y),
        (None, Some(_)) => -1i32,
        (Some(_), None) => 1i32,
        (None, None) => 0i32,
    }
}

/// When both pieces have text, both have a character boundary at the shorter one's length.
pub open spec fn shorter_length_is_boundary(a: Option<Seq<u8>>, b: Option<Seq<u8>>) -> bool {
    match (a, b) {
        (Some(x), Some(y)) => {
            let m = min_int(x.len() as int, y.len() as int);
            is_char_boundary(x, m) && is_char_boundary(y, m)
        },
        _ => true,
    }
}

/// The smaller of two integers.
pub open spec fn min_int(a: int, b: int) -> int {
    if a < b {
        a
    } else {
        b
    }
}

/// Whether `p` occurs in `b` at byte `i`.
pub open spec fn occurs_at(b: Seq<u8>, p: Seq<u8>, i: int) -> bool {
    0 <= i && i + p.len() <= b.len() && b.subrange(i, i + p.len()) == p
}

/// `r` is the first byte at or after `from` where `p` occurs in `b`, or `None` when there
/// is none.
pub open spec fn first_occurrence(b: Seq<u8>, p: Seq<u8>, from: int, r: Option<usize>) -> bool {
    match r {
        Some(k) => from <= k && occurs_at(b, p, k as int) && forall|j: int|
            from <= j < k ==> !occurs_at(b, p, j),
        None => forall|j: int| from <= j ==> !occurs_at(b, p, j),
    }
}

/// `r` is the last byte `k` with `k + p.len() <= end` where `p` occurs in `b`, or `None`
/// when there is none.
pub open spec fn last_occurrence(b: Seq<u8>, p: Seq<u8>, end: int, r: Option<usize>) -> bool {
    match r {
        Some(k) => k + p.len() <= end && occurs_at(b, p, k as int) && forall|j: int|
            k < j && j + p.len() <= end ==> !occurs_at(b, p, j),
        None => forall|j: int| j + p.len() <= end ==> !occurs_at(b, p, j),
    }
}

/// `r` is the first byte at or after `from` that is in `set` (when `want`) or not in it
/// (otherwise), or `None` when there is none.
pub open spec fn first_in_class(b: Seq<u8>, set: Seq<u8>, from: int, want: bool, r: Option<usize>) -> bool {
    match r {
        Some(k) => from <= k < b.len() && set.contains(b[k as int]) == want && forall|j: int|
            from <= j < k ==> set.contains(b[j]) != want,
        None => forall|j: int| from <= j < b.len() ==> set.contains(b[j]) != want,
    }
}

/// `r` is the last byte before `end` that is in `set` (when `want`) or not in it
/// (otherwise), or `None` when there is none.
pub open spec fn last_in_class(b: Seq<u8>, set: Seq<u8>, end: int, want: bool, r: Option<usize>) -> bool {
    match r {
        Some(k) => k < end && set.contains(b[k as int]) == want && forall|j: int|
            k < j < end ==> set.contains(b[j]) != want,
        None => forall|j: int| 0 <= j < end ==> set.contains(b[j]) != want,
    }
}

/// `r` counts the characters from `from` to the first character other than `c`, or is
/// `None` when all characters from `from` on are `c`.
pub open spec fn first_char_other_than(cs: Seq<char>, c: char, from: int, r: Option<usize>) -> bool {
    match r {
        Some(j) => from + j < cs.len() && cs[from + j] != c && forall|k: int|
            from <= k < from + j ==> cs[k] == c,
        None => forall|k: int| from <= k < cs.len() ==> cs[k] == c,
    }
}

/// `r` is the last character index up to `upto` whose character is not `c`, or `None`.
pub open spec fn last_char_other_than(cs: Seq<char>, c: char, upto: int, r: Option<usize>) -> bool {
    match r {
        Some(i) => i <= upto && i < cs.len() && cs[i as int] != c && forall|k: int|
            i < k <= upto && k < cs.len() ==> cs[k] == c,
        None => forall|k: int| 0 <= k <= upto && k < cs.len() ==> cs[k] == c,
    }
}

/// The characters of a piece's bytes.
pub open spec fn piece_chars(b: Seq<u8>) -> Seq<char> {
    decode_utf8(b)
}

/// A borrowed piece of text, or no text at all. Offsets and sizes count bytes.
#[derive(Clone, Copy, Debug, PartialEq, Eq, PartialOrd, Ord)]
pub struct StringPiece<'a> {
    ptr: Option<&'a str>,
}

impl<'a> View for StringPiece<'a> {
    type V = Option<Seq<u8>>;

    /// The bytes of the text, when there is one.
    closed spec fn view(&self) -> Option<Seq<u8>> {
        match self.ptr {
            Some(s) => Some(s.spec_bytes()),
            None => None,
        }
    }
}

impl<'a> StringPiece<'a> {
    /// Largest offset; stands for "no position".
    pub const NPOS: usize = usize::MAX;

    /// The bytes of the piece (none when it has no text).
    pub open spec fn bytes(&self) -> Seq<u8> {
        piece_bytes(self@)
    }

    /// A piece with no text.
    pub fn new() -> (r: Self)
        ensures
            r@ is None,
    {
        StringPiece { ptr: None }
    }

    /// The whole of `s`.
    pub fn from_str(s: &'a str) -> (r: Self)
        ensures
            r@ == Some(s.spec_bytes()),
    {
        StringPiece { ptr: Some(s) }
    }

    /// The first `len` bytes of `offset`, or no text when they do not end on a character
    /// boundary.
    pub fn from_slice(offset: &'a str, len: usize) -> (r: Self)
        ensures
            r@ == prefix_piece(offset.spec_bytes(), len as int),
    {
        StringPiece { ptr: prefix_of(offset, len) }
    }

    /// The text, if any.
    pub fn data(&self) -> (r: Option<&'a str>)
        ensures
            r is None <==> self@ is None,
            r matches Some(s) ==> self@ == Some(s.spec_bytes()),
    {
        self.ptr
    }

    /// Number of bytes.
    pub fn size(&self) -> (r: usize)
        ensures
            r == self.bytes().len(),
    {
        match self.ptr {
            Some(s) => byte_len(s),
            None => 0,
        }
    }

    /// Same as `size`.
    pub fn length(&self) -> (r: usize)
        ensures
            r == self.bytes().len(),
    {
        self.size()
    }

    /// Whether the piece has no bytes.
    pub fn empty(&self) -> (r: bool)
        ensures
            r == (self.bytes().len() == 0),
    {
        self.size() == 0
    }

    /// Forgets the text.
    pub fn clear(&mut self)
        ensures
            final(self)@ is None,
    {
        self.ptr = None;
    }

    /// Takes the first `len` bytes of `data`, as `from_slice`.
    pub fn set(&mut self, data: &'a str, len: usize)
        ensures
            final(self)@ == prefix_piece(data.spec_bytes(), len as int),
    {
        self.ptr = prefix_of(data, len);
    }

    /// Takes the whole of `str`.
    pub fn set_from_str(&mut self, str: &'a str)
        ensures
            final(self)@ == Some(str.spec_bytes()),
    {
        self.ptr = Some(str);
    }

    /// Drops the first `n` bytes; the piece loses its text when they do not end on a
    /// character boundary.
    pub fn remove_prefix(&mut self, n: usize)
        ensures
            old(self)@ is None ==> final(self)@ is None,
            old(self)@ matches Some(b) ==> final(self)@ == suffix_piece(b, n as int),
    {
        if let Some(s) = self.ptr {
            self.ptr = suffix_of(s, n);
        }
    }

    /// Drops the last `n` bytes; the piece loses its text when the rest does not end on a
    /// character boundary.
    pub fn remove_suffix(&mut self, n: usize)
        requires
            n <= old(self).bytes().len(),
        ensures
            old(self)@ is None ==> final(self)@ is None,
            old(self)@ matches Some(b) ==> final(self)@ == prefix_piece(b, b.len() - n),
    {
        if let Some(s) = self.ptr {
            self.ptr = prefix_of(s, byte_len(s) - n);
        }
    }

    /// Three-way comparison: -1, 0 or 1. No text comes before any text; texts compare
    /// lexicographically by bytes. Both texts must have a character boundary at the
    /// shorter one's length.
    pub fn compare(&self, other: &StringPiece) -> (r: i32)
        requires
            shorter_length_is_boundary(self@, other@),
        ensures
            r == piece_compare(self@, other@),
    {
        match (self.ptr, other.ptr) {
            (Some(s1), Some(s2)) => bytes_three_way(s1.as_bytes(), s2.as_bytes()),
            (None, Some(_)) => -1,
            (Some(_), None) => 1,
            (None, None) => 0,
        }
    }

    /// The text as an owned string (empty when there is none).
    pub fn as_string(&self) -> (r: String)
        ensures
            encode_utf8(r@) == self.bytes(),
    {
        self.as_str().to_owned()
    }

    /// The text (empty when there is none).
    pub fn as_str(&self) -> (r: &'a str)
        ensures
            r.spec_bytes() == self.bytes(),
    {
        match self.ptr {
            Some(s) => s,
            None => {
                let e: &'a str = "";
                proof {
                    reveal_strlit("");
                }
                e
            },
        }
    }

    /// Whether both pieces have text and `x`'s bytes begin this one's.
    pub fn starts_with(&self, x: &StringPiece) -> (r: bool)
        ensures
            r == (self@ is Some && x@ is Some && x.bytes().is_prefix_of(self.bytes())),
    {
        match (self.ptr, x.ptr) {
            (Some(s1), Some(s2)) => {
                let a = s1.as_bytes();
                let b = s2.as_bytes();
                if b.len() > a.len() {
                    return false;
                }
                bytes_match_at(a, b, 0)
            },
            _ => false,
        }
    }

    /// Whether both pieces have text and `x`'s bytes end this one's.
    pub fn ends_with(&self, x: &StringPiece) -> (r: bool)
        ensures
            r == (self@ is Some && x@ is Some && x.bytes().is_suffix_of(self.bytes())),
    {
        match (self.ptr, x.ptr) {
            (Some(s1), Some(s2)) => {
                let a = s1.as_bytes();
                let b = s2.as_bytes();
                if b.len() > a.len() {
                    return false;
                }
                let r = bytes_match_at(a, b, a.len() - b.len());
                proof {
                    assert(a@.subrange(a@.len() - b@.len(), a@.len() as int) =~= a@.subrange(
                        a@.len() - b@.len(),
                        a@.len() - b@.len() + b@.len(),
                    ));
                }
                r
            },
            _ => false,
        }
    }

    /// With text, the piece holding the bytes from `pos` up to `min(size, pos + n)` (`n`
    /// defaults to the size): `"hello".substr(1, 3)` is `"ell"`.
    /// No text when either end does not lie on a character boundary, or without text. `pos`
    /// may not exceed the size.
    pub fn substr(&self, pos: usize, n: Option<usize>) -> (r: Self)
        requires
            pos <= self.bytes().len(),
            pos + (match n {
                Some(k) => k as int,
                None => self.bytes().len() as int,
            }) <= usize::MAX,
        ensures
            self@ is None ==> r@ is None,
            self@ matches Some(b) ==> {
                let end = min_int(
                    b.len() as int,
                    pos + (match n {
                        Some(k) => k as int,
                        None => b.len() as int,
                    }),
                );
                &&& r@ == match prefix_piece(b, end) {
                    Some(p) => suffix_piece(p, pos as int),
                    None => None,
                }
                &&& r@ matches Some(x) ==> x == b.subrange(pos as int, end)
            },
    {
        match self.ptr {
            Some(s) => {
                let len = byte_len(s);
                let count = match n {
                    Some(k) => k,
                    None => len,
                };
                let end = if len < pos + count { len } else { pos + count };
                match prefix_of(s, end) {
                    Some(p) => {
                        let r = StringPiece { ptr: suffix_of(p, pos) };
                        proof {
                            if let Some(x) = r@ {
                                assert(x =~= s.spec_bytes().subrange(pos as int, end as int));
                            }
                        }
                        r
                    },
                    None => StringPiece { ptr: None },
                }
            },
            None => StringPiece::new(),
        }
    }

    /// Copies the bytes `[pos, min(size, pos + n))` to the front of `buf` and returns how
    /// many were copied (0 without text).
    pub fn copy(&self, buf: &mut [u8], n: usize, pos: usize) -> (r: usize)
        requires
            self@ is Some ==> pos <= self.bytes().len() && pos + n <= usize::MAX && min_int(
                self.bytes().len() as int,
                pos + n,
            ) - pos <= old(buf)@.len(),
        ensures
            self@ is None ==> r == 0 && final(buf)@ == old(buf)@,
            self@ is Some ==> r == min_int(self.bytes().len() as int, pos + n) - pos
                && final(buf)@ == self.bytes().subrange(pos as int, pos + r) + old(buf)@.subrange(
                r as int,
                old(buf)@.len() as int,
            ),
    {
        match self.ptr {
            Some(s) => {
                let bytes = s.as_bytes();
                let end = if bytes.len() < pos + n { bytes.len() } else { pos + n };
                let count = end - pos;
                let ghost orig = buf@;
                let mut i: usize = 0;
                while i < count
                    invariant
                        count == end - pos,
                        pos <= end <= bytes@.len(),
                        count <= orig.len(),
                        buf@.len() == orig.len(),
                        i <= count,
                        forall|k: int| 0 <= k < i ==> buf@[k] == bytes@[pos + k],
                        forall|k: int| i <= k < orig.len() ==> buf@[k] == orig[k],
                    decreases count - i,
                {
                    buf[i] = bytes[pos + i];
                    i = i + 1;
                }
                assert(buf@ =~= bytes@.subrange(pos as int, pos + count) + orig.subrange(
                    count as int,
                    orig.len() as int,
                ));
                count
            },
            None => 0,
        }
    }
}

impl<'a> StringPiece<'a> {
    /// The first occurrence of `s`'s bytes at or after byte `pos` (an absent `s` counts as
    /// empty). `pos` must begin a character when it lies within the piece.
    pub fn find(&self, s: &StringPiece, pos: usize) -> (r: Option<usize>)
        requires
            self@ is Some && pos <= self.bytes().len() ==> is_char_boundary(self.bytes(), pos as int),
        ensures
            self@ is None ==> r is None,
            self@ is Some && pos > self.bytes().len() ==> r is None,
            self@ is Some && pos <= self.bytes().len() ==> first_occurrence(self.bytes(), s.bytes(), pos as int, r),
    {
        match self.ptr {
            Some(self_str) => {
                let a = self_str.as_bytes();
                if pos > a.len() {
                    return None;
                }
                find_bytes(a, s.as_str().as_bytes(), pos)
            },
            None => None,
        }
    }

    /// The first occurrence of character `c` at or after byte `pos`. `pos` must begin a
    /// character when it lies within the piece.
    pub fn find_char(&self, c: char, pos: usize) -> (r: Option<usize>)
        requires
            self@ is Some && pos < self.bytes().len() ==> is_char_boundary(self.bytes(), pos as int),
        ensures
            self@ is None ==> r is None,
            self@ is Some && pos >= self.bytes().len() ==> r is None,
            self@ is Some && pos < self.bytes().len() ==> first_occurrence(self.bytes(), encode_utf8(seq![c]), pos as int, r),
    {
        match self.ptr {
            Some(self_str) => {
                let a = self_str.as_bytes();
                if pos >= a.len() {
                    return None;
                }
                let p = char_bytes(c);
                find_bytes(a, p.as_slice(), pos)
            },
            None => None,
        }
    }

    /// The last occurrence of `s`'s bytes that starts at most at `pos` (default: the size).
    /// An empty `s` is found at `min(size, pos)`. A non-empty `s` may not be longer than the
    /// piece, and `min(size - s.size, pos) + s.size` must end a character.
    pub fn rfind(&self, s: &StringPiece, pos: Option<usize>) -> (r: Option<usize>)
        requires
            self@ is Some && s.bytes().len() > 0 ==> s.bytes().len() <= self.bytes().len()
                && is_char_boundary(
                self.bytes(),
                min_int(
                    self.bytes().len() - s.bytes().len(),
                    match pos {
                        Some(q) => q as int,
                        None => self.bytes().len() as int,
                    },
                ) + s.bytes().len(),
            ),
        ensures
            self@ is None ==> r is None,
            self@ is Some && s.bytes().len() == 0 ==> r == Some(
                min_int(
                    self.bytes().len() as int,
                    match pos {
                        Some(q) => q as int,
                        None => self.bytes().len() as int,
                    },
                ) as usize,
            ),
            self@ is Some && s.bytes().len() > 0 ==> last_occurrence(
                self.bytes(),
                s.bytes(),
                min_int(
                    self.bytes().len() - s.bytes().len(),
                    match pos {
                        Some(q) => q as int,
                        None => self.bytes().len() as int,
                    },
                ) + s.bytes().len(),
                r,
            ),
    {
        match self.ptr {
            Some(self_str) => {
                let a = self_str.as_bytes();
                let len = a.len();
                let pos = match pos {
                    Some(q) => q,
                    None => len,
                };
                let p = s.as_str().as_bytes();
                if p.len() == 0 {
                    return Some(if len < pos { len } else { pos });
                }
                let start = if len - p.len() < pos { len - p.len() } else { pos };
                rfind_bytes(a, p, start + p.len())
            },
            None => None,
        }
    }

    /// The last occurrence of character `c` ending at most at byte `pos` (default: the
    /// size). `pos` may not exceed the size and must end a character.
    pub fn rfind_char(&self, c: char, pos: Option<usize>) -> (r: Option<usize>)
        requires
            self@ matches Some(b) ==> {
                let end = match pos {
                    Some(q) => q as int,
                    None => b.len() as int,
                };
                end <= b.len() && is_char_boundary(b, end)
            },
        ensures
            self@ is None ==> r is None,
            self@ matches Some(b) ==> last_occurrence(
                b,
                encode_utf8(seq![c]),
                match pos {
                    Some(q) => q as int,
                    None => b.len() as int,
                },
                r,
            ),
    {
        match self.ptr {
            Some(self_str) => {
                let a = self_str.as_bytes();
                let end = match pos {
                    Some(q) => q,
                    None => a.len(),
                };
                let p = char_bytes(c);
                rfind_bytes(a, p.as_slice(), end)
            },
            None => None,
        }
    }

    /// The first byte at or after `pos` that is one of `s`'s bytes; `None` when either piece
    /// is empty.
    pub fn find_first_of(&self, s: &StringPiece, pos: usize) -> (r: Option<usize>)
        requires
            self.bytes().len() > 0 && s.bytes().len() > 1 ==> pos <= self.bytes().len(),
            self.bytes().len() > 0 && s.bytes().len() == 1 && pos < self.bytes().len() ==> is_char_boundary(
                self.bytes(),
                pos as int,
            ),
        ensures
            self.bytes().len() == 0 || s.bytes().len() == 0 ==> r is None,
            self.bytes().len() > 0 && s.bytes().len() > 0 ==> first_in_class(
                self.bytes(),
                s.bytes(),
                pos as int,
                true,
                r,
            ),
    {
        if self.size() == 0 || s.size() == 0 {
            return None;
        }
        let a = self.as_str().as_bytes();
        let set = s.as_str().as_bytes();
        if s.size() == 1 && pos >= a.len() {
            return None;
        }
        first_byte_in_class(a, set, pos, true)
    }

    /// The first byte at or after `pos` that is not one of `s`'s bytes. For an empty `s`
    /// the answer is 0; for a one-byte `s` it counts characters from the `pos`-th character
    /// to the first one other than `s`'s.
    pub fn find_first_not_of(&self, s: &StringPiece, pos: usize) -> (r: Option<usize>)
        requires
            self.bytes().len() > 0 && s.bytes().len() > 1 ==> pos <= self.bytes().len(),
        ensures
            self.bytes().len() == 0 ==> r is None,
            self.bytes().len() > 0 && s.bytes().len() == 0 ==> r == Some(0usize),
            self.bytes().len() > 0 && s.bytes().len() == 1 ==> first_char_other_than(
                piece_chars(self.bytes()),
                piece_chars(s.bytes())[0],
                pos as int,
                r,
            ),
            self.bytes().len() > 0 && s.bytes().len() > 1 ==> first_in_class(
                self.bytes(),
                s.bytes(),
                pos as int,
                false,
                r,
            ),
    {
        if self.size() == 0 {
            return None;
        }
        if s.size() == 0 {
            return Some(0);
        }
        if s.size() == 1 {
            let ch = first_char(s.as_str());
            return self.find_first_not_of_char(ch, pos);
        }
        first_byte_in_class(self.as_str().as_bytes(), s.as_str().as_bytes(), pos, false)
    }

    /// Counts the characters from the `pos`-th character to the first one other than `c`;
    /// `None` when there is none or the piece is empty.
    pub fn find_first_not_of_char(&self, c: char, pos: usize) -> (r: Option<usize>)
        ensures
            self.bytes().len() == 0 ==> r is None,
            self.bytes().len() > 0 ==> first_char_other_than(piece_chars(self.bytes()), c, pos as int, r),
    {
        if self.size() == 0 {
            return None;
        }
        let text = self.as_str();
        proof {
            encode_utf8_decode_utf8(text@);
        }
        let n = text.unicode_len();
        let mut i: usize = pos;
        while i < n
            invariant
                n == text@.len(),
                text@ == piece_chars(self.bytes()),
                pos <= i,
                forall|k: int| pos <= k < i ==> text@[k] == c,
            decreases n - i,
        {
            if text.get_char(i) != c {
                return Some(i - pos);
            }
            i = i + 1;
        }
        None
    }

    /// The last byte before `pos` (default: the size) that is one of `s`'s bytes; `None`
    /// when either piece is empty. `pos` may not exceed the size; for a one-byte `s` it
    /// must end a character.
    pub fn find_last_of(&self, s: &StringPiece, pos: Option<usize>) -> (r: Option<usize>)
        requires
            self.bytes().len() > 0 && s.bytes().len() > 0 ==> {
                let end = match pos {
                    Some(q) => q as int,
                    None => self.bytes().len() as int,
                };
                end <= self.bytes().len() && (s.bytes().len() == 1 ==> is_char_boundary(self.bytes(), end))
            },
        ensures
            self.bytes().len() == 0 || s.bytes().len() == 0 ==> r is None,
            self.bytes().len() > 0 && s.bytes().len() > 0 ==> last_in_class(
                self.bytes(),
                s.bytes(),
                match pos {
                    Some(q) => q as int,
                    None => self.bytes().len() as int,
                },
                true,
                r,
            ),
    {
        if self.size() == 0 || s.size() == 0 {
            return None;
        }
        let end = match pos {
            Some(q) => q,
            None => self.size(),
        };
        last_byte_in_class(self.as_str().as_bytes(), s.as_str().as_bytes(), end, true)
    }

    /// The last byte at or before `pos` (default: size - 1; a larger `pos` counts as size
    /// - 1) that is not one of `s`'s bytes. For an empty `s` the answer is `pos`; for a
    /// one-byte `s` it is the index of the last character up to the `pos`-th that differs
    /// from `s`'s.
    pub fn find_last_not_of(&self, s: &StringPiece, pos: Option<usize>) -> (r: Option<usize>)
        requires
            self.bytes().len() > 0 && s.bytes().len() == 1 ==> match pos {
                Some(q) => q < usize::MAX,
                None => true,
            },
        ensures
            self.bytes().len() == 0 ==> r is None,
            self.bytes().len() > 0 ==> {
                let end = match pos {
                    Some(q) => q as int,
                    None => self.bytes().len() - 1,
                };
                &&& s.bytes().len() == 0 ==> r == Some(end as usize)
                &&& s.bytes().len() == 1 ==> last_char_other_than(
                    piece_chars(self.bytes()),
                    piece_chars(s.bytes())[0],
                    end,
                    r,
                )
                &&& s.bytes().len() > 1 ==> last_in_class(
                    self.bytes(),
                    s.bytes(),
                    min_int(end, self.bytes().len() - 1) + 1,
                    false,
                    r,
                )
            },
    {
        if self.size() == 0 {
            return None;
        }
        let end = match pos {
            Some(q) => q,
            None => self.size() - 1,
        };
        if s.size() == 0 {
            return Some(end);
        }
        if s.size() == 1 {
            let ch = first_char(s.as_str());
            return self.find_last_not_of_char(ch, Some(end));
        }
        let last = if end < self.size() - 1 { end } else { self.size() - 1 };
        last_byte_in_class(self.as_str().as_bytes(), s.as_str().as_bytes(), last + 1, false)
    }

    /// The index of the last character up to the `pos`-th (default: size - 1) that is not
    /// `c`; `None` when there is none or the piece is empty.
    pub fn find_last_not_of_char(&self, c: char, pos: Option<usize>) -> (r: Option<usize>)
        requires
            self.bytes().len() > 0 ==> match pos {
                Some(q) => q < usize::MAX,
                None => true,
            },
        ensures
            self.bytes().len() == 0 ==> r is None,
            self.bytes().len() > 0 ==> last_char_other_than(
                piece_chars(self.bytes()),
                c,
                match pos {
                    Some(q) => q as int,
                    None => self.bytes().len() - 1,
                },
                r,
            ),
    {
        if self.size() == 0 {
            return None;
        }
        let upto = match pos {
            Some(q) => q,
            None => self.size() - 1,
        };
        let text = self.as_str();
        proof {
            encode_utf8_decode_utf8(text@);
        }
        let n = text.unicode_len();
        let mut i: usize = if upto + 1 < n { upto + 1 } else { n };
        while i > 0
            invariant
                n == text@.len(),
                text@ == piece_chars(self.bytes()),
                i <= n,
                i <= upto + 1,
                upto as int == match pos {
                    Some(q) => q as int,
                    None => self.bytes().len() - 1,
                },
                forall|k: int| i <= k <= upto && k < n ==> text@[k] == c,
            decreases i,
        {
            let here = text.get_char(i - 1);
            if here != c {
                assert forall|k: int| i - 1 < k <= upto && k < n implies piece_chars(self.bytes())[k] == c by {
                    assert(text@[k] == c);
                }
                return Some(i - 1);
            }
            i = i - 1;
        }
        None
    }
}

/// The UTF-8 bytes of `c`.
pub(crate) fn char_bytes(c: char) -> (r: Vec<u8>)
    ensures
        r@ == encode_utf8(seq![c]),
{
    proof {
        char_is_scalar(c);
        assert(encode_utf8(seq![c]) =~= encode_scalar(c as u32) + encode_utf8(seq![c].drop_first()));
        assert(seq![c].drop_first() =~= Seq::<char>::empty());
    }
    let u = c as u32;
    let r = if u <= 0x7F {
        vec![(u & 0x7F) as u8]
    } else if u <= 0x7FF {
        vec![0xC0u8 | ((u >> 6) & 0x1F) as u8, 0x80u8 | (u & 0x3F) as u8]
    } else if u <= 0xFFFF {
        vec![
            0xE0u8 | ((u >> 12) & 0x0F) as u8,
            0x80u8 | ((u >> 6) & 0x3F) as u8,
            0x80u8 | (u & 0x3F) as u8,
        ]
    } else {
        vec![
            0xF0u8 | ((u >> 18) & 0x7) as u8,
            0x80u8 | ((u >> 12) & 0x3F) as u8,
            0x80u8 | ((u >> 6) & 0x3F) as u8,
            0x80u8 | (u & 0x3F) as u8,
        ]
    };
    assert(r@ =~= encode_scalar(u));
    r
}

/// The first character of a non-empty text.
fn first_char(s: &str) -> (r: char)
    requires
        s.spec_bytes().len() > 0,
    ensures
        r == piece_chars(s.spec_bytes())[0],
{
    proof {
        encode_utf8_decode_utf8(s@);
    }
    s.get_char(0)
}

/// The first occurrence of `p` in `a` at or after `from`.
pub(crate) fn find_bytes(a: &[u8], p: &[u8], from: usize) -> (r: Option<usize>)
    ensures
        first_occurrence(a@, p@, from as int, r),
{
    if p.len() > a.len() {
        return None;
    }
    let last = a.len() - p.len();
    let mut k = from;
    while k <= last
        invariant
            last == a@.len() - p@.len(),
            from <= k,
            forall|j: int| from <= j < k ==> !occurs_at(a@, p@, j),
        decreases last - k,
    {
        if bytes_match_at(a, p, k) {
            return Some(k);
        }
        if k == last {
            return None;
        }
        k = k + 1;
    }
    None
}

/// The last occurrence of `p` in `a` that ends at most at `end`.
pub(crate) fn rfind_bytes(a: &[u8], p: &[u8], end: usize) -> (r: Option<usize>)
    requires
        end <= a@.len(),
    ensures
        last_occurrence(a@, p@, end as int, r),
{
    if p.len() > end {
        return None;
    }
    let mut k = end - p.len();
    loop
        invariant
            end <= a@.len(),
            k + p@.len() <= end,
            forall|j: int| k < j && j + p@.len() <= end ==> !occurs_at(a@, p@, j),
        decreases k,
    {
        if bytes_match_at(a, p, k) {
            return Some(k);
        }
        if k == 0 {
            return None;
        }
        k = k - 1;
    }
}

/// Which bytes occur in `set`.
fn byte_table(set: &[u8]) -> (t: Vec<bool>)
    ensures
        t@.len() == 256,
        forall|x: u8| #[trigger] t@[x as int] == set@.contains(x),
{
    let mut t: Vec<bool> = vec![false; 256];
    let mut i: usize = 0;
    while i < set.len()
        invariant
            t@.len() == 256,
            i <= set@.len(),
            forall|x: u8| #[trigger] t@[x as int] == exists|j: int| 0 <= j < i && set@[j] == x,
        decreases set@.len() - i,
    {
        let b = set[i];
        t.set(b as usize, true);
        proof {
            assert forall|x: u8| #[trigger] t@[x as int] == exists|j: int| 0 <= j < i + 1 && set@[j] == x by {
                if x == b {
                    assert(set@[i as int] == x);
                }
            }
        }
        i = i + 1;
    }
    t
}

/// The first byte of `a` at or after `from` whose membership in `set` is `want`.
fn first_byte_in_class(a: &[u8], set: &[u8], from: usize, want: bool) -> (r: Option<usize>)
    ensures
        first_in_class(a@, set@, from as int, want, r),
{
    let t = byte_table(set);
    let mut i = from;
    while i < a.len()
        invariant
            t@.len() == 256,
            forall|x: u8| #[trigger] t@[x as int] == set@.contains(x),
            from <= i,
            forall|j: int| from <= j < i ==> set@.contains(a@[j]) != want,
        decreases a@.len() - i,
    {
        if t[a[i] as usize] == want {
            return Some(i);
        }
        i = i + 1;
    }
    None
}

/// The last byte of `a` before `end` whose membership in `set` is `want`.
fn last_byte_in_class(a: &[u8], set: &[u8], end: usize, want: bool) -> (r: Option<usize>)
    requires
        end <= a@.len(),
    ensures
        last_in_class(a@, set@, end as int, want, r),
{
    let t = byte_table(set);
    let mut i = end;
    while i > 0
        invariant
            t@.len() == 256,
            forall|x: u8| #[trigger] t@[x as int] == set@.contains(x),
            i <= end <= a@.len(),
            forall|j: int| i <= j < end ==> set@.contains(a@[j]) != want,
        decreases i,
    {
        if t[a[i - 1] as usize] == want {
            return Some(i - 1);
        }
        i = i - 1;
    }
    None
}

/// Number of bytes of `s`.
fn byte_len(s: &str) -> (r: usize)
    ensures
        r == s.spec_bytes().len(),
{
    s.as_bytes().len()
}

/// The first `len` bytes of `s`, when they end on a character boundary.
fn prefix_of<'a>(s: &'a str, len: usize) -> (r: Option<&'a str>)
    ensures
        r is None <==> !is_char_boundary(s.spec_bytes(), len as int),
        r matches Some(p) ==> p.spec_bytes() == s.spec_bytes().subrange(0, len as int),
{
    if s.is_char_boundary(len) {
        Some(s.split_at(len).0)
    } else {
        None
    }
}

/// The bytes of `s` from `start` on, when `start` begins a character.
fn suffix_of<'a>(s: &'a str, start: usize) -> (r: Option<&'a str>)
    ensures
        r is None <==> !is_char_boundary(s.spec_bytes(), start as int),
        r matches Some(p) ==> p.spec_bytes() == s.spec_bytes().subrange(
            start as int,
            s.spec_bytes().len() as int,
        ),
{
    if s.is_char_boundary(start) {
        Some(s.split_at(start).1)
    } else {
        None
    }
}

/// Whether `b` occurs in `a` at byte `at`.
pub fn bytes_match_at(a: &[u8], b: &[u8], at: usize) -> (r: bool)
    requires
        at + b@.len() <= a@.len(),
    ensures
        r == (a@.subrange(at as int, at + b@.len()) == b@),
{
    let alen = a.len();
    let mut i: usize = 0;
    while i < b.len()
        invariant
            alen == a@.len(),
            at + b@.len() <= alen,
            i <= b@.len(),
            forall|k: int| 0 <= k < i ==> a@[at + k] == b@[k],
        decreases b@.len() - i,
    {
        if a[at + i] != b[i] {
            assert(a@.subrange(at as int, at + b@.len())[i as int] != b@[i as int]);
            return false;
        }
        i = i + 1;
    }
    assert(a@.subrange(at as int, at + b@.len()) =~= b@);
    true
}

/// Three-way lexicographic comparison of byte strings: -1, 0 or 1.
fn bytes_three_way(a: &[u8], b: &[u8]) -> (r: i32)
    ensures
        r == bytes_compare(a@, b@),
{
    let n = if a.len() < b.len() { a.len() } else { b.len() };
    let mut i: usize = 0;
    while i < n
        invariant
            n <= a@.len(),
            n <= b@.len(),
            n == a@.len() || n == b@.len(),
            i <= n,
            forall|k: int| 0 <= k < i ==> a@[k] == b@[k],
        decreases n - i,
    {
        if a[i] != b[i] {
            proof {
                lemma_bytes_le_after_common_prefix(a@, b@, i as int);
                assert(a@ != b@) by {
                    assert(a@[i as int] != b@[i as int]);
                }
            }
            return if a[i] < b[i] {
                -1
            } else {
                1
            };
        }
        i = i + 1;
    }
    proof {
        lemma_bytes_le_after_common_prefix(a@, b@, n as int);
        if a@.len() == b@.len() {
            assert(a@ =~= b@);
        } else {
            assert(a@ != b@);
        }
    }
    if a.len() < b.len() {
        -1
    } else if a.len() > b.len() {
        1
    } else {
        0
    }
}

/// Comparing a piece with itself gives 0, and swapping two pieces negates the result.
pub proof fn law_compare_reflexive_antisymmetric(a: Option<Seq<u8>>, b: Option<Seq<u8>>)
    ensures
        piece_compare(a, a) == 0,
        piece_compare(a, b) == -piece_compare(b, a),
        piece_compare(a, b) == 0 <==> a == b,
{
    if let (Some(x), Some(y)) = (a, b) {
        lemma_bytes_le_total(x, y);
        if bytes_le(x, y) && bytes_le(y, x) {
            lemma_bytes_le_antisymmetric(x, y);
        }
    }
}

} // verus!

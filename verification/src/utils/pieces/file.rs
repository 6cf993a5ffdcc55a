//! A reader over the bytes of a text file: lines, delimited tokens and numbers.
use vstd::prelude::*;
use vstd::string::StrSliceExecFns;
use vstd::utf8::{decode_utf8, valid_utf8};
use crate::error::LMError;
use crate::text::{parse_u64, parse_u64_spec};

verus! {

/// Whether `b` is ASCII white space: space, tab, line feed, form feed or carriage return.
pub open spec fn is_ascii_white(b: u8) -> bool {
    b == 32 || b == 9 || b == 10 || b == 12 || b == 13
}

/// The text that `bytes` encode as UTF-8, or no text when they are not valid UTF-8.
pub open spec fn utf8_text(bytes: Seq<u8>) -> Seq<char> {
    if valid_utf8(bytes) {
        decode_utf8(bytes)
    } else {
        Seq::empty()
    }
}

/// `t` without one final carriage return, when asked to drop it.
pub open spec fn strip_cr_text(t: Seq<char>, strip: bool) -> Seq<char> {
    if strip && t.len() > 0 && t.last() == '\r' {
        t.drop_last()
    } else {
        t
    }
}

/// The first position at or after `p` whose byte `keep` rejects, or the end.
pub open spec fn run_end(data: Seq<u8>, p: int, keep: spec_fn(u8) -> bool) -> int
    decreases data.len() - p,
{
    if 0 <= p < data.len() && keep(data[p]) {
        run_end(data, p + 1, keep)
    } else {
        p
    }
}

/// A run that `keep` accepts from `p` up to `q`, stopped at `q`, ends at `q`.
proof fn lemma_run_end_at(data: Seq<u8>, p: int, q: int, keep: spec_fn(u8) -> bool)
    requires
        0 <= p <= q <= data.len(),
        forall|k: int| p <= k < q ==> #[trigger] keep(data[k]),
        q == data.len() || !keep(data[q]),
    ensures
        run_end(data, p, keep) == q,
    decreases q - p,
{
    if p < q {
        lemma_run_end_at(data, p + 1, q, keep);
    }
}

/// A run starts no earlier than where it is looked for and ends by the end of the data.
pub proof fn lemma_run_end_bounds(data: Seq<u8>, p: int, keep: spec_fn(u8) -> bool)
    requires
        0 <= p <= data.len(),
    ensures
        p <= run_end(data, p, keep) <= data.len(),
    decreases data.len() - p,
{
    if p < data.len() && keep(data[p]) {
        lemma_run_end_bounds(data, p + 1, keep);
    }
}

/// Where the line that starts at `p` ends: the first `d` byte from `p` on, or the end.
pub open spec fn line_end(data: Seq<u8>, p: int, d: u8) -> int {
    run_end(data, p, other_than(d))
}

/// Where the line after the one that starts at `p` starts: past its `d` byte, or at the end.
pub open spec fn next_line_start(data: Seq<u8>, p: int, d: u8) -> int {
    let e = line_end(data, p, d);
    if e < data.len() {
        e + 1
    } else {
        e
    }
}

/// The text of the line that starts at `p`, without its final carriage return when `strip`.
pub open spec fn line_text(data: Seq<u8>, p: int, d: u8, strip: bool) -> Seq<char> {
    strip_cr_text(utf8_text(data.subrange(p, line_end(data, p, d))), strip)
}

/// The lines from the one at `p` to the end, as `read_line` with `\n` reads them, a final
/// carriage return dropped.
pub open spec fn lines_from(data: Seq<u8>, p: int) -> Seq<Seq<char>>
    decreases data.len() - p,
{
    if p < 0 || p >= data.len() {
        Seq::empty()
    } else {
        proof {
            lemma_line_advances(data, p, '\n' as u8);
        }
        seq![line_text(data, p, '\n' as u8, true)] + lines_from(data, next_line_start(data, p, '\n' as u8))
    }
}

/// Reading a line moves forward, and not past the end.
pub proof fn lemma_line_advances(data: Seq<u8>, p: int, d: u8)
    requires
        0 <= p < data.len(),
    ensures
        p < next_line_start(data, p, d) <= data.len(),
{
    lemma_run_end_bounds(data, p, other_than(d));
}

/// White-space bytes.
pub open spec fn white() -> spec_fn(u8) -> bool {
    |b: u8| is_ascii_white(b)
}

/// Bytes other than white space.
pub open spec fn non_white() -> spec_fn(u8) -> bool {
    |b: u8| !is_ascii_white(b)
}

/// Bytes marked in a table of 256 flags.
pub open spec fn marked(marks: Seq<bool>) -> spec_fn(u8) -> bool {
    |b: u8| marks[b as int]
}

/// Bytes not marked in a table of 256 flags.
pub open spec fn unmarked(marks: Seq<bool>) -> spec_fn(u8) -> bool {
    |b: u8| !marks[b as int]
}

/// Bytes other than `d`.
pub open spec fn other_than(d: u8) -> spec_fn(u8) -> bool {
    |b: u8| b != d
}

/// Which bytes a run is made of.
enum Run {
    White,
    NonWhite,
    Marked,
    Unmarked,
}

/// The bytes that a run of `kind` is made of, with `marks` as the table of marked bytes.
spec fn run_kind(kind: Run, marks: Seq<bool>) -> spec_fn(u8) -> bool {
    match kind {
        Run::White => white(),
        Run::NonWhite => non_white(),
        Run::Marked => marked(marks),
        Run::Unmarked => unmarked(marks),
    }
}

/// `std::str::from_utf8`: the text that `bytes` encode, or `None` when they are not valid
/// UTF-8 (the contract claims both, as its documentation states them).
#[verifier::external_body]
fn str_from_utf8(bytes: &[u8]) -> (r: Option<&str>)
    ensures
        r is Some <==> valid_utf8(bytes@),
        r matches Some(s) ==> s@ == decode_utf8(bytes@),
{
    std::str::from_utf8(bytes).ok()
}

/// The text of `bytes` as an owned string (empty when not valid UTF-8).
fn text_of(bytes: &[u8]) -> (r: String)
    ensures
        r@ == utf8_text(bytes@),
{
    match str_from_utf8(bytes) {
        Some(s) => s.to_owned(),
        None => String::new(),
    }
}

/// A reader over the whole content of a file, with a read position.
pub struct FilePiece {
    data: Vec<u8>,
    file_name: String,
    position: usize,
}

impl FilePiece {
    /// The content.
    pub closed spec fn bytes(&self) -> Seq<u8> {
        self.data@
    }

    /// The read position, a byte offset into the content.
    pub closed spec fn pos(&self) -> int {
        self.position as int
    }

    /// The name of the file.
    pub closed spec fn name(&self) -> Seq<char> {
        self.file_name@
    }

    /// The position never passes the end.
    pub closed spec fn wf(&self) -> bool {
        self.position <= self.data@.len()
    }

    /// The position lies within the content or at its end.
    pub proof fn lemma_pos_bounds(&self)
        requires
            self.wf(),
        ensures
            0 <= self.pos() <= self.bytes().len(),
    {
    }

    /// Whether the position lies within the content or at its end, as it always does for a
    /// reader made by `from_bytes` and moved by its methods.
    pub fn is_consistent(&self) -> (r: bool)
        ensures
            r == self.wf(),
    {
        self.position <= self.data.len()
    }

    /// A reader at the start of `data`, the content of the file `file_name`.
    pub fn from_bytes(file_name: String, data: Vec<u8>) -> (r: Self)
        ensures
            r.wf(),
            r.bytes() == data@,
            r.pos() == 0,
            r.name() == file_name@,
    {
        FilePiece { data, file_name, position: 0 }
    }

    pub fn file_name(&self) -> (r: &str)
        ensures
            r@ == self.name(),
    {
        self.file_name.as_str()
    }

    /// The byte at the position, as a character, without moving; `EndOfFile` at the end.
    pub fn peek(&mut self) -> (r: Result<char, LMError>)
        ensures
            *final(self) == *old(self),
            old(self).pos() >= old(self).bytes().len() ==> r == Err::<char, LMError>(LMError::EndOfFile),
            old(self).pos() < old(self).bytes().len() ==> r == Ok::<char, LMError>(
                (old(self).bytes()[old(self).pos()] as u32) as char,
            ),
    {
        if self.position >= self.data.len() {
            return Err(LMError::EndOfFile);
        }
        let b = self.data[self.position];
        Ok(byte_char(b))
    }

    /// The byte at the position, as a character, moving past it; `EndOfFile` at the end.
    pub fn get(&mut self) -> (r: Result<char, LMError>)
        requires
            old(self).wf(),
        ensures
            final(self).wf(),
            final(self).bytes() == old(self).bytes(),
            final(self).name() == old(self).name(),
            old(self).pos() >= old(self).bytes().len() ==> r == Err::<char, LMError>(LMError::EndOfFile)
                && final(self).pos() == old(self).pos(),
            old(self).pos() < old(self).bytes().len() ==> r == Ok::<char, LMError>(
                (old(self).bytes()[old(self).pos()] as u32) as char,
            ) && final(self).pos() == old(self).pos() + 1,
    {
        if self.position >= self.data.len() {
            return Err(LMError::EndOfFile);
        }
        let c = byte_char(self.data[self.position]);
        self.position = self.position + 1;
        Ok(c)
    }

    /// Moves past ASCII white space.
    pub fn skip_spaces(&mut self)
        requires
            old(self).wf(),
        ensures
            final(self).wf(),
            final(self).bytes() == old(self).bytes(),
            final(self).name() == old(self).name(),
            final(self).pos() == run_end(old(self).bytes(), old(self).pos(), white()),
    {
        let e = self.run_end_exec(self.position, Run::White, &[false; 256]);
        self.position = e;
    }

    /// Moves past bytes marked in `delimiters`.
    pub fn skip_delimiters(&mut self, delimiters: &[bool; 256])
        requires
            old(self).wf(),
        ensures
            final(self).wf(),
            final(self).bytes() == old(self).bytes(),
            final(self).name() == old(self).name(),
            final(self).pos() == run_end(old(self).bytes(), old(self).pos(), marked(delimiters@)),
    {
        let e = self.run_end_exec(self.position, Run::Marked, delimiters);
        self.position = e;
    }

    /// The end of the run of `kind` bytes from `start` on (`marks` is the table of marked
    /// bytes).
    fn run_end_exec(&self, start: usize, kind: Run, marks: &[bool; 256]) -> (e: usize)
        requires
            start <= self.data@.len(),
        ensures
            e == run_end(self.data@, start as int, run_kind(kind, marks@)),
            start <= e <= self.data@.len(),
    {
        let ghost keep = run_kind(kind, marks@);
        let mut e = start;
        while e < self.data.len()
            invariant
                start <= e <= self.data@.len(),
                keep == run_kind(kind, marks@),
                forall|k: int| start <= k < e ==> #[trigger] keep(self.data@[k]),
            ensures
                start <= e <= self.data@.len(),
                forall|k: int| start <= k < e ==> #[trigger] keep(self.data@[k]),
                e == self.data@.len() || !keep(self.data@[e as int]),
            decreases self.data@.len() - e,
        {
            let b = self.data[e];
            let keeps = match kind {
                Run::White => is_ascii_white_byte(b),
                Run::NonWhite => !is_ascii_white_byte(b),
                Run::Marked => marks[b as usize],
                Run::Unmarked => !marks[b as usize],
            };
            if !keeps {
                break;
            }
            e = e + 1;
        }
        proof {
            lemma_run_end_at(self.data@, start as int, e as int, keep);
        }
        e
    }

    /// The text up to the next white space (or the end), moving past it; a `ParseError`
    /// when no byte comes before that white space.
    pub fn read_until_space(&mut self) -> (r: Result<String, LMError>)
        requires
            old(self).wf(),
        ensures
            final(self).wf(),
            final(self).bytes() == old(self).bytes(),
            final(self).name() == old(self).name(),
            final(self).pos() == run_end(old(self).bytes(), old(self).pos(), non_white()),
            final(self).pos() == old(self).pos() ==> (r matches Err(LMError::ParseError(m)) && m@
                == "Empty token"@),
            final(self).pos() > old(self).pos() ==> (r matches Ok(s) && s@ == utf8_text(
                old(self).bytes().subrange(old(self).pos(), final(self).pos()),
            )),
    {
        let start = self.position;
        let end = self.run_end_exec(start, Run::NonWhite, &[false; 256]);
        if end == start {
            return Err(LMError::ParseError("Empty token".to_owned()));
        }
        let result = text_of(&self.data[start..end]);
        self.position = end;
        Ok(result)
    }

    /// Skips white space and reads the next token as a decimal `u64`; a `ParseError` when
    /// there is no token or it is not such a number.
    pub fn read_ulong(&mut self) -> (r: Result<u64, LMError>)
        requires
            old(self).wf(),
        ensures
            final(self).wf(),
            final(self).bytes() == old(self).bytes(),
            final(self).name() == old(self).name(),
            ({
                let q = run_end(old(self).bytes(), old(self).pos(), white());
                let e = run_end(old(self).bytes(), q, non_white());
                let t = utf8_text(old(self).bytes().subrange(q, e));
                &&& final(self).pos() == e
                &&& e == q ==> (r matches Err(LMError::ParseError(m)) && m@ == "Empty token"@)
                &&& e > q && parse_u64_spec(t) is Some ==> r == Ok::<u64, LMError>(parse_u64_spec(t)->0)
                &&& e > q && parse_u64_spec(t) is None ==> (r matches Err(LMError::ParseError(m)) && m@
                    == "Failed to parse ulong: "@ + t)
            }),
    {
        self.skip_spaces();
        let s = match self.read_until_space() {
            Ok(s) => s,
            Err(e) => {
                return Err(e);
            },
        };
        match parse_u64(s.as_str()) {
            Some(v) => Ok(v),
            None => {
                let mut m = String::from_str("Failed to parse ulong: ");
                m.append(s.as_str());
                Err(LMError::ParseError(m))
            },
        }
    }

    /// Skips the bytes marked in `delimiters` and reads the text up to the next marked byte
    /// (or the end).
    pub fn read_delimited(&mut self, delimiters: &[bool; 256]) -> (r: Result<String, LMError>)
        requires
            old(self).wf(),
        ensures
            final(self).wf(),
            final(self).bytes() == old(self).bytes(),
            final(self).name() == old(self).name(),
            ({
                let q = run_end(old(self).bytes(), old(self).pos(), marked(delimiters@));
                let e = run_end(old(self).bytes(), q, unmarked(delimiters@));
                &&& final(self).pos() == e
                &&& r matches Ok(s) && s@ == utf8_text(old(self).bytes().subrange(q, e))
            }),
    {
        self.skip_delimiters(delimiters);
        let start = self.position;
        let end = self.run_end_exec(start, Run::Unmarked, delimiters);
        let result = text_of(&self.data[start..end]);
        self.position = end;
        Ok(result)
    }

    /// The text up to the next `delim` byte (or the end), moving past that byte; one final
    /// carriage return is dropped when `strip_cr` is set. `EndOfFile` at the end.
    pub fn read_line(&mut self, delim: char, strip_cr: bool) -> (r: Result<String, LMError>)
        requires
            old(self).wf(),
        ensures
            final(self).wf(),
            final(self).bytes() == old(self).bytes(),
            final(self).name() == old(self).name(),
            old(self).pos() >= old(self).bytes().len() ==> r == Err::<String, LMError>(LMError::EndOfFile)
                && final(self).pos() == old(self).pos(),
            old(self).pos() < old(self).bytes().len() ==> final(self).pos() == next_line_start(
                old(self).bytes(),
                old(self).pos(),
                delim as u8,
            ) && (r matches Ok(s) && s@ == line_text(old(self).bytes(), old(self).pos(), delim as u8, strip_cr)),
    {
        if self.position >= self.data.len() {
            return Err(LMError::EndOfFile);
        }
        let start = self.position;
        let d: u8 = delim as u8;
        let end = self.line_end(start, d);
        let text = text_of(&self.data[start..end]);
        self.position = if end < self.data.len() { end + 1 } else { end };
        let n = text.as_str().unicode_len();
        if strip_cr && n > 0 && text.as_str().get_char(n - 1) == '\r' {
            let kept = text.as_str().substring_char(0, n - 1);
            assert(kept@ =~= text@.drop_last());
            Ok(kept.to_owned())
        } else {
            Ok(text)
        }
    }

    /// The first position at or after `start` whose byte is `d`, or the end.
    fn line_end(&self, start: usize, d: u8) -> (e: usize)
        requires
            start <= self.data@.len(),
        ensures
            e == run_end(self.data@, start as int, other_than(d)),
            start <= e <= self.data@.len(),
    {
        let ghost keep = other_than(d);
        let mut e = start;
        while e < self.data.len() && self.data[e] != d
            invariant
                start <= e <= self.data@.len(),
                keep == other_than(d),
                forall|k: int| start <= k < e ==> #[trigger] keep(self.data@[k]),
            decreases self.data@.len() - e,
        {
            e = e + 1;
        }
        proof {
            lemma_run_end_at(self.data@, start as int, e as int, keep);
        }
        e
    }

    /// Whether the position is at the end.
    pub fn at_end(&self) -> (r: bool)
        ensures
            r == (self.pos() >= self.bytes().len()),
    {
        self.position >= self.data.len()
    }

    /// The position, as a byte offset.
    pub fn offset(&self) -> (r: u64)
        ensures
            r == self.pos(),
    {
        self.position as u64
    }
}

/// Whether `b` is ASCII white space.
fn is_ascii_white_byte(b: u8) -> (r: bool)
    ensures
        r == is_ascii_white(b),
{
    b == 32 || b == 9 || b == 10 || b == 12 || b == 13
}

/// The character whose code is the byte `b` (0 to 255).
fn byte_char(b: u8) -> (c: char)
    ensures
        c == (b as u32) as char,
{
    b as char
}

} // verus!

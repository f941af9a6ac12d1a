//! Self-delimiting encoding of log entries.
//!
//! A text is written as its UTF-8 length (eight bytes, little endian)
//! followed by its UTF-8 bytes. A record is a one-byte tag followed by its
//! texts: `Put` carries the key and the value, `Remove` the key alone.
use vstd::prelude::*;
use vstd::bytes::*;
use vstd::slice::*;
use vstd::utf8::*;

verus! {

broadcast use vstd::utf8::group_utf8_lib;

/// Tag byte of a `Put` record.
pub const TAG_SET: u8 = 1;

/// Tag byte of a `Remove` record.
pub const TAG_REMOVE: u8 = 2;

/// One record of the log.
#[derive(Debug, Clone, PartialEq, Eq)]
pub enum Entry {
    Put(String, String),
    Remove(String),
}

/// What a record says, over character sequences.
pub ghost enum EntryView {
    Put(Seq<char>, Seq<char>),
    Remove(Seq<char>),
}

impl View for Entry {
    type V = EntryView;

    open spec fn view(&self) -> EntryView {
        match self {
            Entry::Put(k, v) => EntryView::Put(k@, v@),
            Entry::Remove(k) => EntryView::Remove(k@),
        }
    }
}

/// Why bytes could not be read as a record.
#[derive(PartialEq, Eq, Structural, Debug, Clone, Copy)]
pub enum DecodeError {
    /// The bytes end inside a record.
    Truncated,
    /// The tag byte names no known record.
    UnknownTag,
    /// A text is not valid UTF-8.
    InvalidText,
}

/// A byte string preceded by its length.
pub open spec fn field_bytes(b: Seq<u8>) -> Seq<u8> {
    spec_u64_to_le_bytes(b.len() as u64) + b
}

/// A text as it is written: its UTF-8 bytes preceded by their length.
pub open spec fn text_bytes(s: Seq<char>) -> Seq<u8> {
    field_bytes(encode_utf8(s))
}

/// The bytes of one record.
pub open spec fn entry_bytes(e: EntryView) -> Seq<u8> {
    match e {
        EntryView::Put(k, v) => seq![TAG_SET] + text_bytes(k) + text_bytes(v),
        EntryView::Remove(k) => seq![TAG_REMOVE] + text_bytes(k),
    }
}

/// The length-prefixed byte string at the start of `b`, and the number of
/// bytes it takes.
pub open spec fn parse_field(b: Seq<u8>) -> Option<(Seq<u8>, int)> {
    if b.len() < 8 {
        None
    } else {
        let n = spec_u64_from_le_bytes(b.subrange(0, 8)) as int;
        if n <= b.len() - 8 {
            Some((b.subrange(8, 8 + n), 8 + n))
        } else {
            None
        }
    }
}

/// The text at the start of `b`, and the number of bytes it takes.
pub open spec fn parse_text(b: Seq<u8>) -> Result<(Seq<char>, int), DecodeError> {
    match parse_field(b) {
        Some((f, n)) => if valid_utf8(f) {
            Ok((decode_utf8(f), n))
        } else {
            Err(DecodeError::InvalidText)
        },
        None => Err(DecodeError::Truncated),
    }
}

/// The record at the start of `b`, and the number of bytes it takes.
pub open spec fn parse_entry(b: Seq<u8>) -> Result<(EntryView, int), DecodeError> {
    if b.len() == 0 {
        Err(DecodeError::Truncated)
    } else if b[0] == TAG_SET {
        match parse_text(b.skip(1)) {
            Ok((k, n1)) => match parse_text(b.skip(1 + n1)) {
                Ok((v, n2)) => Ok((EntryView::Put(k, v), 1 + n1 + n2)),
                Err(d) => Err(d),
            },
            Err(d) => Err(d),
        }
    } else if b[0] == TAG_REMOVE {
        match parse_text(b.skip(1)) {
            Ok((k, n1)) => Ok((EntryView::Remove(k), 1 + n1)),
            Err(d) => Err(d),
        }
    } else {
        Err(DecodeError::UnknownTag)
    }
}

/// A field is read back from its bytes, whatever follows them.
pub proof fn lemma_field_round_trip(b: Seq<u8>, rest: Seq<u8>)
    requires
        b.len() <= u64::MAX,
    ensures
        parse_field(field_bytes(b) + rest) == Some((b, 8 + b.len() as int)),
{
    lemma_auto_spec_u64_to_from_le_bytes();
    let all = field_bytes(b) + rest;
    let len_bytes = spec_u64_to_le_bytes(b.len() as u64);
    assert(all.subrange(0, 8) =~= len_bytes);
    assert(all.subrange(8, 8 + b.len() as int) =~= b);
}

/// A text is read back from its bytes, whatever follows them.
pub proof fn lemma_text_round_trip(s: Seq<char>, rest: Seq<u8>)
    requires
        encode_utf8(s).len() <= u64::MAX,
    ensures
        parse_text(text_bytes(s) + rest) == Ok::<(Seq<char>, int), DecodeError>((s, 8 + encode_utf8(s).len() as int)),
{
    lemma_field_round_trip(encode_utf8(s), rest);
}

/// Every record fits the length field.
pub open spec fn entry_fits(e: EntryView) -> bool {
    match e {
        EntryView::Put(k, v) => encode_utf8(k).len() <= u64::MAX && encode_utf8(v).len() <= u64::MAX,
        EntryView::Remove(k) => encode_utf8(k).len() <= u64::MAX,
    }
}

/// A record is read back from its bytes, and the next record starts right
/// after them.
pub proof fn lemma_entry_round_trip(e: EntryView, rest: Seq<u8>)
    requires
        entry_fits(e),
    ensures
        parse_entry(entry_bytes(e) + rest) == Ok::<(EntryView, int), DecodeError>((e, entry_bytes(e).len() as int)),
{
    lemma_auto_spec_u64_to_from_le_bytes();
    let all = entry_bytes(e) + rest;
    match e {
        EntryView::Put(k, v) => {
            let tail = text_bytes(v) + rest;
            assert(all.skip(1) =~= text_bytes(k) + tail);
            lemma_text_round_trip(k, tail);
            let n1: int = 8 + encode_utf8(k).len() as int;
            assert(text_bytes(k).len() == n1);
            assert(all.skip(1 + n1) =~= text_bytes(v) + rest);
            lemma_text_round_trip(v, rest);
        },
        EntryView::Remove(k) => {
            assert(all.skip(1) =~= text_bytes(k) + rest);
            lemma_text_round_trip(k, rest);
        },
    }
}

/// Two records written one after the other read back as those two
/// records, the second starting right where the first ends.
pub proof fn law_two_records(e1: EntryView, e2: EntryView)
    requires
        entry_fits(e1),
        entry_fits(e2),
    ensures
        parse_entry(entry_bytes(e1) + entry_bytes(e2)) == Ok::<(EntryView, int), DecodeError>(
            (e1, entry_bytes(e1).len() as int),
        ),
        parse_entry((entry_bytes(e1) + entry_bytes(e2)).skip(entry_bytes(e1).len() as int)) == Ok::<
            (EntryView, int),
            DecodeError,
        >((e2, entry_bytes(e2).len() as int)),
{
    lemma_entry_round_trip(e1, entry_bytes(e2));
    let b1 = entry_bytes(e1);
    let b2 = entry_bytes(e2);
    assert((b1 + b2).skip(b1.len() as int) =~= b2 + Seq::<u8>::empty());
    lemma_entry_round_trip(e2, Seq::<u8>::empty());
}

/// Appends `b` preceded by its length.
fn push_field(out: &mut Vec<u8>, b: &[u8])
    ensures
        final(out)@ == old(out)@ + field_bytes(b@),
{
    let mut len = u64_to_le_bytes(b.len() as u64);
    out.append(&mut len);
    let mut body = slice_to_vec(b);
    out.append(&mut body);
}

/// Appends the bytes of a text.
pub fn push_text(out: &mut Vec<u8>, s: &String)
    ensures
        final(out)@ == old(out)@ + text_bytes(s@),
        encode_utf8(s@).len() <= usize::MAX,
{
    let b = s.as_str().as_bytes();
    let n = b.len();
    assert(encode_utf8(s@).len() == n);
    push_field(out, b);
}

impl Entry {
    /// The bytes of this record.
    pub fn to_bytes(&self) -> (r: Vec<u8>)
        ensures
            r@ == entry_bytes(self@),
            entry_fits(self@),
    {
        let mut out: Vec<u8> = Vec::new();
        match self {
            Entry::Put(k, v) => {
                out.push(TAG_SET);
                push_text(&mut out, k);
                push_text(&mut out, v);
            },
            Entry::Remove(k) => {
                out.push(TAG_REMOVE);
                push_text(&mut out, k);
            },
        }
        proof {
            match self@ {
                EntryView::Put(k, v) => {
                    assert(out@ =~= seq![TAG_SET] + text_bytes(k) + text_bytes(v));
                },
                EntryView::Remove(k) => {
                    assert(out@ =~= seq![TAG_REMOVE] + text_bytes(k));
                },
            }
        }
        out
    }
}

/// Relies on `std::str::from_utf8`: it accepts exactly the valid UTF-8
/// byte strings, and the text it gives is their decoding.
#[verifier::external_body]
pub(crate) fn utf8_text(b: &[u8]) -> (r: Option<String>)
    ensures
        r is Some <==> valid_utf8(b@),
        r is Some ==> r->Some_0@ == decode_utf8(b@),
{
    std::str::from_utf8(b).ok().map(|t| t.to_owned())
}

/// Where the length-prefixed byte string at `off` lies: its first byte and
/// the end of the field.
fn read_field(buf: &[u8], off: usize) -> (r: Option<(usize, usize)>)
    requires
        off <= buf@.len(),
    ensures
        match parse_field(buf@.skip(off as int)) {
            Some((f, n)) => r is Some && r->Some_0.0 == off + 8 && r->Some_0.1 == off + n
                && f == buf@.subrange(off + 8, off + n),
            None => r is None,
        },
{
    if buf.len() - off < 8 {
        return None;
    }
    let n = u64_from_le_bytes(slice_subrange(buf, off, off + 8));
    proof {
        assert(buf@.skip(off as int).subrange(0, 8) =~= buf@.subrange(off as int, off + 8));
    }
    let avail = (buf.len() - off - 8) as u64;
    if n > avail {
        None
    } else {
        let end = off + 8 + n as usize;
        proof {
            assert(buf@.skip(off as int).subrange(8, 8 + n) =~= buf@.subrange(off + 8, end as int));
        }
        Some((off + 8, end))
    }
}

/// Reads the text at `off`: the text and the offset right after it.
pub fn read_text(buf: &[u8], off: usize) -> (r: Result<(String, usize), DecodeError>)
    requires
        off <= buf@.len(),
    ensures
        match parse_text(buf@.skip(off as int)) {
            Ok((t, n)) => r is Ok && r->Ok_0.0@ == t && r->Ok_0.1 == off + n,
            Err(d) => r == Err::<(String, usize), DecodeError>(d),
        },
{
    match read_field(buf, off) {
        None => Err(DecodeError::Truncated),
        Some((start, end)) => {
            match utf8_text(slice_subrange(buf, start, end)) {
                Some(t) => Ok((t, end)),
                None => Err(DecodeError::InvalidText),
            }
        },
    }
}

/// Reads the record at `off`: `None` at the end of the bytes, else the
/// record and the offset right after it.
pub fn read_entry(buf: &[u8], off: usize) -> (r: Result<Option<(Entry, usize)>, DecodeError>)
    requires
        off <= buf@.len(),
    ensures
        off == buf@.len() ==> r == Ok::<Option<(Entry, usize)>, DecodeError>(None),
        off < buf@.len() ==> match parse_entry(buf@.skip(off as int)) {
            Ok((e, n)) => r is Ok && r->Ok_0 is Some && r->Ok_0->Some_0.0@ == e
                && r->Ok_0->Some_0.1 == off + n,
            Err(d) => r == Err::<Option<(Entry, usize)>, DecodeError>(d),
        },
{
    if off == buf.len() {
        return Ok(None);
    }
    let tag = buf[off];
    let ghost b = buf@.skip(off as int);
    assert(b.skip(1) =~= buf@.skip(off + 1));
    if tag == TAG_SET {
        let (k, mid) = match read_text(buf, off + 1) {
            Ok(x) => x,
            Err(d) => return Err(d),
        };
        assert(b.skip(mid - off) =~= buf@.skip(mid as int));
        let (v, end) = match read_text(buf, mid) {
            Ok(x) => x,
            Err(d) => return Err(d),
        };
        Ok(Some((Entry::Put(k, v), end)))
    } else if tag == TAG_REMOVE {
        match read_text(buf, off + 1) {
            Ok((k, end)) => Ok(Some((Entry::Remove(k), end))),
            Err(d) => Err(d),
        }
    } else {
        Err(DecodeError::UnknownTag)
    }
}

} // verus!

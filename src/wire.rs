use crate::binary::{BinaryDecoder, BinaryEncoder, DecodeError};
use crate::file::FileId;
use crate::span::{Position, Span};
use vstd::bytes::*;
use vstd::prelude::*;

verus! {

/// A `usize` on the wire: eight little-endian bytes.
pub open spec fn usize_bytes(x: usize) -> Seq<u8> {
    spec_u64_to_le_bytes(x as u64)
}

/// A position on the wire: offset, line and column.
pub open spec fn position_bytes(p: Position) -> Seq<u8> {
    usize_bytes(p.offset) + usize_bytes(p.line) + usize_bytes(p.col)
}

/// A span on the wire: its file's identity, then its two ends.
pub open spec fn span_bytes(s: Span) -> Seq<u8> {
    usize_bytes(s.file.0) + position_bytes(s.start) + position_bytes(s.end)
}

/// The `usize` whose bytes start at `i` of `b`.
pub open spec fn usize_at(b: Seq<u8>, i: int) -> usize {
    spec_u64_from_le_bytes(b.subrange(i, i + 8)) as usize
}

pub open spec fn position_at(b: Seq<u8>, i: int) -> Position {
    Position { offset: usize_at(b, i), line: usize_at(b, i + 8), col: usize_at(b, i + 16) }
}

pub open spec fn span_at(b: Seq<u8>, i: int) -> Span {
    Span { file: FileId(usize_at(b, i)), start: position_at(b, i + 8), end: position_at(b, i + 32) }
}

proof fn lemma_usize_round_trip(x: usize, before: Seq<u8>, after: Seq<u8>)
    ensures
        usize_bytes(x).len() == 8,
        usize_at(before + usize_bytes(x) + after, before.len() as int) == x,
{
    lemma_auto_spec_u64_to_from_le_bytes();
    let b = before + usize_bytes(x) + after;
    assert(b.subrange(before.len() as int, before.len() + 8int) =~= usize_bytes(x));
}

/// Reading a position back from the bytes that encoding it wrote gives the
/// position, wherever in a byte string they stand.
pub proof fn lemma_position_round_trip(p: Position, before: Seq<u8>, after: Seq<u8>)
    ensures
        position_bytes(p).len() == 24,
        position_at(before + position_bytes(p) + after, before.len() as int) == p,
{
    let n = before.len();
    let b = before + position_bytes(p) + after;
    lemma_usize_round_trip(p.offset, before, usize_bytes(p.line) + usize_bytes(p.col) + after);
    assert(b =~= before + usize_bytes(p.offset) + (usize_bytes(p.line) + usize_bytes(p.col) + after));
    lemma_usize_round_trip(p.line, before + usize_bytes(p.offset), usize_bytes(p.col) + after);
    assert(b =~= (before + usize_bytes(p.offset)) + usize_bytes(p.line) + (usize_bytes(p.col) + after));
    lemma_usize_round_trip(p.col, before + usize_bytes(p.offset) + usize_bytes(p.line), after);
    assert(b =~= (before + usize_bytes(p.offset) + usize_bytes(p.line)) + usize_bytes(p.col) + after);
}

/// Reading a span back from the bytes that encoding it wrote gives the span,
/// wherever in a byte string they stand.
pub proof fn lemma_span_round_trip(s: Span, before: Seq<u8>, after: Seq<u8>)
    ensures
        span_bytes(s).len() == 56,
        span_at(before + span_bytes(s) + after, before.len() as int) == s,
{
    let b = before + span_bytes(s) + after;
    let f = usize_bytes(s.file.0);
    let ps = position_bytes(s.start);
    let pe = position_bytes(s.end);
    lemma_usize_round_trip(s.file.0, before, ps + pe + after);
    assert(b =~= before + f + (ps + pe + after));
    lemma_position_round_trip(s.start, before + f, pe + after);
    assert(b =~= (before + f) + ps + (pe + after));
    lemma_position_round_trip(s.end, before + f + ps, after);
    assert(b =~= (before + f + ps) + pe + after);
}

impl FileId {
    pub fn encode(&self, e: &mut BinaryEncoder)
        ensures
            final(e)@ == old(e)@ + usize_bytes(self.0),
    {
        e.emit_usize(self.0);
    }

    /// Reads an identity; fails without moving when fewer than eight bytes
    /// are left.
    pub fn decode(d: &mut BinaryDecoder) -> (r: Result<FileId, DecodeError>)
        requires
            old(d).wf(),
        ensures
            final(d).wf(),
            final(d).bytes() == old(d).bytes(),
            old(d).has(8) ==> r == Ok::<FileId, DecodeError>(FileId(usize_at(old(d).bytes(), old(d).pos() as int)))
                && final(d).pos() == old(d).pos() + 8,
            !old(d).has(8) ==> r == Err::<FileId, DecodeError>(DecodeError::UnexpectedEnd)
                && final(d).pos() == old(d).pos(),
    {
        let v = d.read_usize()?;
        Ok(FileId(v))
    }
}

impl Position {
    pub fn encode(&self, e: &mut BinaryEncoder)
        ensures
            final(e)@ == old(e)@ + position_bytes(*self),
    {
        e.emit_usize(self.offset);
        e.emit_usize(self.line);
        e.emit_usize(self.col);
        assert(final(e)@ =~= old(e)@ + position_bytes(*self));
    }

    /// Reads a position; fails without moving when fewer than 24 bytes are
    /// left.
    pub fn decode(d: &mut BinaryDecoder) -> (r: Result<Position, DecodeError>)
        requires
            old(d).wf(),
        ensures
            final(d).wf(),
            final(d).bytes() == old(d).bytes(),
            old(d).has(24) ==> r == Ok::<Position, DecodeError>(position_at(old(d).bytes(), old(d).pos() as int))
                && final(d).pos() == old(d).pos() + 24,
            !old(d).has(24) ==> r == Err::<Position, DecodeError>(DecodeError::UnexpectedEnd)
                && final(d).pos() == old(d).pos(),
    {
        if d.remaining() < 24 {
            return Err(DecodeError::UnexpectedEnd);
        }
        let offset = d.read_usize()?;
        let line = d.read_usize()?;
        let col = d.read_usize()?;
        Ok(Position { offset, line, col })
    }
}

impl Span {
    pub fn encode(&self, e: &mut BinaryEncoder)
        ensures
            final(e)@ == old(e)@ + span_bytes(*self),
    {
        self.file.encode(e);
        self.start.encode(e);
        self.end.encode(e);
        assert(final(e)@ =~= old(e)@ + span_bytes(*self));
    }

    /// Reads a span; fails without moving when fewer than 56 bytes are left.
    pub fn decode(d: &mut BinaryDecoder) -> (r: Result<Span, DecodeError>)
        requires
            old(d).wf(),
        ensures
            final(d).wf(),
            final(d).bytes() == old(d).bytes(),
            old(d).has(56) ==> r == Ok::<Span, DecodeError>(span_at(old(d).bytes(), old(d).pos() as int))
                && final(d).pos() == old(d).pos() + 56,
            !old(d).has(56) ==> r == Err::<Span, DecodeError>(DecodeError::UnexpectedEnd)
                && final(d).pos() == old(d).pos(),
    {
        if d.remaining() < 56 {
            return Err(DecodeError::UnexpectedEnd);
        }
        let file = FileId::decode(d)?;
        let start = Position::decode(d)?;
        let end = Position::decode(d)?;
        Ok(Span { file, start, end })
    }
}

} // verus!

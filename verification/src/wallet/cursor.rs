//! Cursors over a byte slice: one that reads, one that writes.
use crate::bytes;
use crate::wallet::pskt::PsktError;
use crate::wallet::transaction::Hash256;
use vstd::prelude::*;

verus! {

/// Reads a slice from front to back.
pub struct ByteReader<'a> {
    pub data: &'a [u8],
    pub pos: usize,
}

/// What a read of `n` bytes does to a reader: it moves on by `n`, or fails
/// and stays where it is when fewer are left.
pub open spec fn read_moves<T>(
    before: ByteReader,
    after: ByteReader,
    n: int,
    r: Result<T, PsktError>,
) -> bool {
    &&& after.data == before.data
    &&& after.wf()
    &&& r is Ok <==> before.pos + n <= before.data@.len()
    &&& r is Ok ==> after.pos == before.pos + n
    &&& r matches Err(e) ==> e == PsktError::BufferTooShort && after.pos == before.pos
}

impl<'a> ByteReader<'a> {
    /// The position lies within the slice.
    pub open spec fn wf(self) -> bool {
        self.pos <= self.data@.len()
    }

    pub fn new(data: &'a [u8]) -> (r: Self)
        ensures
            r.data == data,
            r.pos == 0,
            r.wf(),
    {
        ByteReader { data, pos: 0 }
    }

    pub fn remaining(&self) -> (r: usize)
        requires
            self.wf(),
        ensures
            r == self.data@.len() - self.pos,
            self.data@.len() <= usize::MAX,
    {
        self.data.len().saturating_sub(self.pos)
    }

    pub fn peek_u8(&self) -> (r: Option<u8>)
        requires
            self.wf(),
        ensures
            r == if self.pos < self.data@.len() {
                Some(self.data@[self.pos as int])
            } else {
                None
            },
    {
        if self.pos < self.data.len() {
            Some(self.data[self.pos])
        } else {
            None
        }
    }

    pub fn read_u8(&mut self) -> (r: Result<u8, PsktError>)
        requires
            old(self).wf(),
        ensures
            read_moves(*old(self), *final(self), 1, r),
            r matches Ok(v) ==> v == old(self).data@[old(self).pos as int],
    {
        if self.pos >= self.data.len() {
            return Err(PsktError::BufferTooShort);
        }
        let v = self.data[self.pos];
        self.pos += 1;
        Ok(v)
    }

    pub fn read_u16_le(&mut self) -> (r: Result<u16, PsktError>)
        requires
            old(self).wf(),
        ensures
            read_moves(*old(self), *final(self), 2, r),
            r matches Ok(v) ==> v == le_at(old(self).data@, old(self).pos as int, 2),
    {
        if self.remaining() < 2 {
            return Err(PsktError::BufferTooShort);
        }
        proof {
            bytes::lemma_le2(self.data@.subrange(self.pos as int, self.pos + 2));
        }
        let v = self.data[self.pos] as u16 + 256 * (self.data[self.pos + 1] as u16);
        self.pos += 2;
        Ok(v)
    }

    /// A script length: one byte, or 0xFF and two more for 255 and above.
    pub fn read_spk_len(&mut self) -> (r: Result<usize, PsktError>)
        requires
            old(self).wf(),
        ensures
            final(self).data == old(self).data,
            final(self).wf(),
            r is Ok <==> spk_len_at(old(self).data@, old(self).pos as int) is Some,
            r matches Ok(v) ==> spk_len_at(old(self).data@, old(self).pos as int) == Some(
                (v as int, final(self).pos as int),
            ),
            r matches Err(e) ==> e == PsktError::BufferTooShort,
    {
        let b = self.read_u8()?;
        if b == 0xFF {
            let v = self.read_u16_le()?;
            Ok(v as usize)
        } else {
            Ok(b as usize)
        }
    }

    pub fn read_u32_le(&mut self) -> (r: Result<u32, PsktError>)
        requires
            old(self).wf(),
        ensures
            read_moves(*old(self), *final(self), 4, r),
            r matches Ok(v) ==> v == le_at(old(self).data@, old(self).pos as int, 4),
    {
        if self.remaining() < 4 {
            return Err(PsktError::BufferTooShort);
        }
        let v = self.le_u32(self.pos);
        self.pos += 4;
        Ok(v)
    }

    fn le_u32(&self, p: usize) -> (v: u32)
        requires
            p + 4 <= self.data@.len(),
        ensures
            v == le_at(self.data@, p as int, 4),
    {
        proof {
            bytes::lemma_le4(self.data@.subrange(p as int, p + 4));
        }
        self.data[p] as u32 + 0x100 * (self.data[p + 1] as u32) + 0x1_0000 * (self.data[p
            + 2] as u32) + 0x100_0000 * (self.data[p + 3] as u32)
    }

    pub fn read_u64_le(&mut self) -> (r: Result<u64, PsktError>)
        requires
            old(self).wf(),
        ensures
            read_moves(*old(self), *final(self), 8, r),
            r matches Ok(v) ==> v == le_at(old(self).data@, old(self).pos as int, 8),
    {
        if self.remaining() < 8 {
            return Err(PsktError::BufferTooShort);
        }
        proof {
            let s = self.data@.subrange(self.pos as int, self.pos + 8);
            bytes::lemma_le8(s);
            assert(s.take(4) =~= self.data@.subrange(self.pos as int, self.pos + 4));
            assert(s.skip(4) =~= self.data@.subrange(self.pos + 4, self.pos + 8));
        }
        let low = self.le_u32(self.pos);
        let high = self.le_u32(self.pos + 4);
        let v = low as u64 + 0x1_0000_0000 * (high as u64);
        self.pos += 8;
        Ok(v)
    }

    pub fn read_bytes(&mut self, n: usize) -> (r: Result<&'a [u8], PsktError>)
        requires
            old(self).wf(),
        ensures
            read_moves(*old(self), *final(self), n as int, r),
            r matches Ok(v) ==> v@ == old(self).data@.subrange(
                old(self).pos as int,
                old(self).pos + n,
            ),
    {
        if self.remaining() < n {
            return Err(PsktError::BufferTooShort);
        }
        let slice = vstd::slice::slice_subrange(self.data, self.pos, self.pos + n);
        self.pos += n;
        Ok(slice)
    }

    pub fn read_hash256(&mut self) -> (r: Result<Hash256, PsktError>)
        requires
            old(self).wf(),
        ensures
            read_moves(*old(self), *final(self), 32, r),
            r matches Ok(v) ==> v == bytes::array_of::<32>(
                old(self).data@.subrange(old(self).pos as int, old(self).pos + 32),
            ),
    {
        let b = self.read_bytes(32)?;
        Ok(bytes::to_array(b))
    }
}

/// The `n`-byte little-endian number at `at`.
pub open spec fn le_at(data: Seq<u8>, at: int, n: int) -> int {
    bytes::le_nat(data.subrange(at, at + n)) as int
}

/// The script length encoded at `at`, with the position behind it.
pub open spec fn spk_len_at(data: Seq<u8>, at: int) -> Option<(int, int)> {
    if at + 1 > data.len() {
        None
    } else if data[at] != 0xFF {
        Some((data[at] as int, at + 1))
    } else if at + 3 > data.len() {
        None
    } else {
        Some((le_at(data, at + 1, 2), at + 3))
    }
}

/// The encoding of a script length, field by field.
pub open spec fn spk_len_fields(len: nat) -> Seq<Seq<u8>> {
    if len <= 254 {
        seq![seq![len as u8]]
    } else {
        seq![seq![0xFFu8]] + seq![bytes::le_bytes(len, 2)]
    }
}

/// How many bytes of an encoding are written where there is room for `room`:
/// whole fields, up to the first that does not fit.
pub open spec fn fitting(fields: Seq<Seq<u8>>, room: int) -> int
    decreases fields.len(),
{
    if fields.len() == 0 || fields[0].len() > room {
        0
    } else {
        fields[0].len() + fitting(fields.skip(1), room - fields[0].len())
    }
}

/// Concatenation associates; used to peel an encoding field by field.
pub broadcast proof fn lemma_concat_assoc(x: Seq<Seq<u8>>, y: Seq<Seq<u8>>, z: Seq<Seq<u8>>)
    ensures
        #[trigger] ((x + y) + z) == x + (y + z),
{
    assert((x + y) + z =~= x + (y + z));
}

/// Nothing follows an empty piece.
pub broadcast proof fn lemma_concat_empty(x: Seq<Seq<u8>>)
    ensures
        #[trigger] (Seq::<Seq<u8>>::empty() + x) == x,
{
    assert(Seq::<Seq<u8>>::empty() + x =~= x);
}

/// One more field of an encoding.
proof fn lemma_flatten_next(fields: Seq<Seq<u8>>, n: int)
    requires
        0 <= n < fields.len(),
    ensures
        fields.take(n + 1).flatten() == fields.take(n).flatten() + fields[n],
{
    assert(fields.take(n + 1) =~= fields.take(n).push(fields[n]));
    fields.take(n).lemma_flatten_push(fields[n]);
}

/// The fields in front of the first that does not fit are those written.
pub proof fn lemma_fitting(fields: Seq<Seq<u8>>, n: int, room: int)
    requires
        0 <= n < fields.len(),
        fields.take(n).flatten().len() <= room,
        fields.take(n).flatten().len() + fields[n].len() > room,
    ensures
        fitting(fields, room) == fields.take(n).flatten().len(),
        fields.flatten().take(fitting(fields, room)) == fields.take(n).flatten(),
        fields.flatten().len() > room,
    decreases n,
{
    let whole = fields.flatten();
    let front = fields.take(n);
    assert(fields =~= front + fields.skip(n));
    vstd::seq_lib::lemma_flatten_concat(front, fields.skip(n));
    assert(fields.skip(n).flatten().len() >= fields[n].len()) by {
        assert(fields.skip(n).first() == fields[n]);
    }
    assert(whole.take(front.flatten().len() as int) =~= front.flatten());
    if n == 0 {
        assert(front =~= Seq::<Seq<u8>>::empty());
    } else {
        let rest = fields.skip(1);
        assert(front.first() == fields[0]);
        assert(front.drop_first() =~= rest.take(n - 1));
        lemma_fitting(rest, n - 1, room - fields[0].len());
    }
}

/// The first `n` fields, and no more, fit into `room` bytes and take `len` of
/// them.
pub open spec fn are_written(fields: Seq<Seq<u8>>, room: int, len: int, n: int) -> bool {
    &&& 0 <= n <= fields.len()
    &&& len == fields.take(n).flatten().len() <= room
    &&& n < fields.len() ==> len + fields[n].len() > room
}

proof fn lemma_are_written(fields: Seq<Seq<u8>>, room: int) -> (n: int)
    requires
        room >= 0,
    ensures
        are_written(fields, room, fitting(fields, room), n),
    decreases fields.len(),
{
    if fields.len() == 0 || fields[0].len() > room {
        assert(fields.take(0) =~= Seq::<Seq<u8>>::empty());
        0
    } else {
        let rest = fields.skip(1);
        let n = lemma_are_written(rest, room - fields[0].len());
        assert(fields.take(n + 1) =~= seq![fields[0]] + rest.take(n));
        seq![fields[0]].lemma_flatten_one_element();
        vstd::seq_lib::lemma_flatten_concat(seq![fields[0]], rest.take(n));
        n + 1
    }
}

/// Where there is not enough room, whole fields are written, in their order,
/// up to the first that does not fit.
pub proof fn law_whole_fields_are_written(fields: Seq<Seq<u8>>, room: int)
    requires
        room >= 0,
    ensures
        exists|n: int| #[trigger] are_written(fields, room, fitting(fields, room), n),
{
    let n = lemma_are_written(fields, room);
    assert(are_written(fields, room, fitting(fields, room), n));
}

/// Writes an encoding into a slice, field by field.
pub struct ByteWriter<'a> {
    pub buf: &'a mut [u8],
    pub pos: usize,
    /// What the slice held at first.
    pub start: Ghost<Seq<u8>>,
    /// All the fields of the encoding.
    pub fields: Ghost<Seq<Seq<u8>>>,
    /// How many of them are written.
    pub next: Ghost<int>,
}

/// The fields of `piece` come next.
pub open spec fn wants(w: ByteWriter, piece: Seq<Seq<u8>>) -> bool {
    exists|rest: Seq<Seq<u8>>| w.todo() == #[trigger] (piece + rest)
}

/// What an attempt to write `piece` does to a writer: it is written, or the
/// writer stops in front of a field that does not fit.
pub open spec fn wrote(
    before: ByteWriter,
    after: ByteWriter,
    piece: Seq<Seq<u8>>,
    r: Result<(), PsktError>,
) -> bool {
    &&& after.wf()
    &&& after.start == before.start
    &&& after.fields == before.fields
    &&& r is Ok ==> forall|rest: Seq<Seq<u8>>|
        before.todo() == #[trigger] (piece + rest) ==> after.todo() == rest
    &&& r matches Err(e) ==> e == PsktError::OutputBufferTooSmall && after.stuck()
}

impl<'a> ByteWriter<'a> {
    /// The slice holds the fields that are written, and its old contents
    /// behind.
    pub open spec fn wf(self) -> bool {
        let done = self.fields@.take(self.next@).flatten();
        &&& 0 <= self.next@ <= self.fields@.len()
        &&& self.pos == done.len()
        &&& self.pos <= self.start@.len()
        &&& self.buf@ == done + self.start@.skip(self.pos as int)
    }

    /// What is still to be written.
    pub open spec fn todo(self) -> Seq<Seq<u8>> {
        self.fields@.skip(self.next@)
    }

    /// The next field does not fit.
    pub open spec fn stuck(self) -> bool {
        self.next@ < self.fields@.len() && self.pos + self.fields@[self.next@].len()
            > self.start@.len()
    }

    /// How many bytes still fit.
    pub open spec fn room(self) -> int {
        self.buf@.len() - self.pos
    }

    pub fn new(buf: &'a mut [u8], Ghost(fields): Ghost<Seq<Seq<u8>>>) -> (r: Self)
        ensures
            r.start@ == old(buf)@,
            r.fields@ == fields,
            r.todo() == fields,
            final(r.buf)@ == final(buf)@,
            r.pos == 0,
            r.wf(),
    {
        assert(fields.take(0) =~= Seq::<Seq<u8>>::empty());
        assert(buf@ =~= Seq::<u8>::empty() + buf@.skip(0));
        assert(fields.skip(0) =~= fields);
        let ghost start = buf@;
        ByteWriter { buf, pos: 0, start: Ghost(start), fields: Ghost(fields), next: Ghost(0) }
    }

    pub fn remaining(&self) -> (r: usize)
        requires
            self.wf(),
        ensures
            r == self.room(),
            self.room() + self.pos <= usize::MAX,
    {
        self.buf.len().saturating_sub(self.pos)
    }

    pub fn written(&self) -> (r: usize)
        ensures
            r == self.pos,
    {
        self.pos
    }

    pub fn write_bytes(&mut self, data: &[u8]) -> (r: Result<(), PsktError>)
        requires
            old(self).wf(),
            wants(*old(self), seq![data@]),
        ensures
            wrote(*old(self), *final(self), seq![data@], r),
            final(final(self).buf)@ == final(old(self).buf)@,
    {
        proof {
            let rest = choose|rest: Seq<Seq<u8>>| self.todo() == #[trigger] (seq![data@] + rest);
            assert((seq![data@] + rest)[0] == data@);
            assert(self.todo().len() == 1 + rest.len());
            assert(self.todo()[0] == self.fields@[self.next@]);
        }
        if self.remaining() < data.len() {
            return Err(PsktError::OutputBufferTooSmall);
        }
        let start = self.pos;
        let mut i: usize = 0;
        assert(self.buf@ =~= self.buf@.take(start as int) + data@.take(0) + self.buf@.skip(
            start as int,
        ));
        while i < data.len()
            invariant
                i <= data.len(),
                start == old(self).pos,
                self.pos == start,
                self.start == old(self).start,
                self.fields == old(self).fields,
                self.next == old(self).next,
                start + data.len() <= self.buf@.len() == old(self).buf@.len() <= usize::MAX,
                final(self.buf)@ == final(old(self).buf)@,
                self.buf@ == old(self).buf@.take(start as int) + data@.take(i as int) + old(
                    self,
                ).buf@.skip(start + i),
            decreases data.len() - i,
        {
            self.buf[start + i] = data[i];
            i += 1;
            assert(self.buf@ =~= old(self).buf@.take(start as int) + data@.take(i as int) + old(
                self,
            ).buf@.skip(start + i));
        }
        self.pos = start + data.len();
        self.next = Ghost(self.next@ + 1);
        proof {
            let fields = self.fields@;
            let n = old(self).next@;
            let done = fields.take(n).flatten();
            lemma_flatten_next(fields, n);
            assert(old(self).buf@.take(start as int) =~= done);
            assert(data@.take(i as int) =~= data@);
            assert(self.buf@ =~= (done + data@) + self.start@.skip(self.pos as int));
            assert forall|rest: Seq<Seq<u8>>|
                old(self).todo() == #[trigger] (seq![data@] + rest) implies self.todo() == rest by {
                assert((seq![data@] + rest).skip(1) =~= rest);
                assert(self.todo() =~= old(self).todo().skip(1));
            }
        }
        Ok(())
    }

    pub fn write_u8(&mut self, val: u8) -> (r: Result<(), PsktError>)
        requires
            old(self).wf(),
            wants(*old(self), seq![seq![val]]),
        ensures
            wrote(*old(self), *final(self), seq![seq![val]], r),
            final(final(self).buf)@ == final(old(self).buf)@,
    {
        let b = [val];
        assert(b@ =~= seq![val]);
        self.write_bytes(b.as_slice())
    }

    pub fn write_u16_le(&mut self, val: u16) -> (r: Result<(), PsktError>)
        requires
            old(self).wf(),
            wants(*old(self), seq![bytes::le_bytes(val as nat, 2)]),
        ensures
            wrote(*old(self), *final(self), seq![bytes::le_bytes(val as nat, 2)], r),
            final(final(self).buf)@ == final(old(self).buf)@,
    {
        let b = [(val % 256) as u8, (val / 256) as u8];
        proof {
            reveal_with_fuel(bytes::le_bytes, 3);
            assert(b@ =~= bytes::le_bytes(val as nat, 2));
        }
        self.write_bytes(b.as_slice())
    }

    /// A script length, as `read_spk_len` reads it.
    pub fn write_spk_len(&mut self, len: usize) -> (r: Result<(), PsktError>)
        requires
            old(self).wf(),
            len <= 0xFFFF,
            wants(*old(self), spk_len_fields(len as nat)),
        ensures
            wrote(*old(self), *final(self), spk_len_fields(len as nat), r),
            final(final(self).buf)@ == final(old(self).buf)@,
    {
        broadcast use lemma_concat_assoc;

        if len <= 254 {
            self.write_u8(len as u8)
        } else {
            self.write_u8(0xFF)?;
            self.write_u16_le(len as u16)
        }
    }

    pub fn write_u32_le(&mut self, val: u32) -> (r: Result<(), PsktError>)
        requires
            old(self).wf(),
            wants(*old(self), seq![bytes::le_bytes(val as nat, 4)]),
        ensures
            wrote(*old(self), *final(self), seq![bytes::le_bytes(val as nat, 4)], r),
            final(final(self).buf)@ == final(old(self).buf)@,
    {
        let b = [
            (val % 256) as u8,
            (val / 0x100 % 256) as u8,
            (val / 0x1_0000 % 256) as u8,
            (val / 0x100_0000) as u8,
        ];
        proof {
            reveal_with_fuel(bytes::le_bytes, 5);
            assert(b@ =~= bytes::le_bytes(val as nat, 4));
        }
        self.write_bytes(b.as_slice())
    }

    #[verifier::spinoff_prover]
    #[verifier::rlimit(50)]
    pub fn write_u64_le(&mut self, val: u64) -> (r: Result<(), PsktError>)
        requires
            old(self).wf(),
            wants(*old(self), seq![bytes::le_bytes(val as nat, 8)]),
        ensures
            wrote(*old(self), *final(self), seq![bytes::le_bytes(val as nat, 8)], r),
            final(final(self).buf)@ == final(old(self).buf)@,
    {
        let b = [
            (val % 256) as u8,
            (val / 0x100 % 256) as u8,
            (val / 0x1_0000 % 256) as u8,
            (val / 0x100_0000 % 256) as u8,
            (val / 0x1_0000_0000 % 256) as u8,
            (val / 0x100_0000_0000 % 256) as u8,
            (val / 0x1_0000_0000_0000 % 256) as u8,
            (val / 0x100_0000_0000_0000) as u8,
        ];
        assert(b@ =~= bytes::le_bytes(val as nat, 8)) by {
            reveal_with_fuel(bytes::le_bytes, 9);
        }
        self.write_bytes(b.as_slice())
    }
}

} // verus!

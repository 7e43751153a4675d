use vstd::prelude::*;
use crate::encoding::{u32_le, push_u32_le};

verus! {

/// Width in bytes of one payload record.
pub const RECORD_WIDTH: usize = 17;

/// Per-pattern metadata. The salience is an `f32` held as its IEEE-754 bit
/// pattern, so that it survives storage bit for bit.
#[derive(Clone, Copy, Debug, PartialEq, Eq, Structural)]
pub struct Payload {
    pub phrase_id: u32,
    pub salience_bits: u32,
    pub count: u32,
    pub n: u8,
}

/// Errors met while reading a payload table.
#[derive(Clone, Copy, Debug, PartialEq, Eq, Structural)]
pub enum PayloadError {
    /// The table ends inside a record.
    TruncatedRecord,
}

/// The integer whose little-endian bytes are `b0 b1 b2 b3`.
pub open spec fn u32_of_le(b0: u8, b1: u8, b2: u8, b3: u8) -> u32 {
    (b0 as u32) | ((b1 as u32) << 8u32) | ((b2 as u32) << 16u32) | ((b3 as u32) << 24u32)
}

/// The 17 bytes of a record: phrase id, salience bits, count, four zero bytes
/// and the length, all little-endian.
pub open spec fn record_bytes(p: Payload) -> Seq<u8> {
    u32_le(p.phrase_id) + u32_le(p.salience_bits) + u32_le(p.count) + seq![0u8, 0u8, 0u8, 0u8]
        + seq![p.n]
}

/// The record that the 17 bytes `b` describe; bytes 12 to 15 are ignored.
pub open spec fn record_of(b: Seq<u8>) -> Payload {
    Payload {
        phrase_id: u32_of_le(b[0], b[1], b[2], b[3]),
        salience_bits: u32_of_le(b[4], b[5], b[6], b[7]),
        count: u32_of_le(b[8], b[9], b[10], b[11]),
        n: b[16],
    }
}

/// The records of a table, one per whole 17-byte block.
pub open spec fn records_of(b: Seq<u8>) -> Seq<Payload> {
    Seq::new(
        b.len() / 17,
        |i: int| record_of(b.subrange(17 * i, 17 * i + 17)),
    )
}

/// The bytes of a table holding `ps` in order.
pub open spec fn table_bytes(ps: Seq<Payload>) -> Seq<u8>
    decreases ps.len(),
{
    if ps.len() == 0 {
        Seq::empty()
    } else {
        table_bytes(ps.drop_last()) + record_bytes(ps.last())
    }
}

proof fn lemma_u32_le_round_trip(x: u32)
    ensures
        u32_of_le(u32_le(x)[0], u32_le(x)[1], u32_le(x)[2], u32_le(x)[3]) == x,
{
    assert(((x & 0xff) as u8 as u32) | ((((x >> 8u32) & 0xff) as u8 as u32) << 8u32) | (((((x
        >> 16u32) & 0xff) as u8) as u32) << 16u32) | (((((x >> 24u32) & 0xff) as u8) as u32)
        << 24u32) == x) by (bit_vector);
}

/// Reading back a written record gives the record, salience bits included.
pub proof fn lemma_record_round_trip(p: Payload)
    ensures
        record_bytes(p).len() == RECORD_WIDTH,
        record_of(record_bytes(p)) == p,
{
    lemma_u32_le_round_trip(p.phrase_id);
    lemma_u32_le_round_trip(p.salience_bits);
    lemma_u32_le_round_trip(p.count);
    let b = record_bytes(p);
    assert(b[0] == u32_le(p.phrase_id)[0] && b[1] == u32_le(p.phrase_id)[1] && b[2] == u32_le(
        p.phrase_id,
    )[2] && b[3] == u32_le(p.phrase_id)[3]);
    assert(b[4] == u32_le(p.salience_bits)[0] && b[5] == u32_le(p.salience_bits)[1] && b[6]
        == u32_le(p.salience_bits)[2] && b[7] == u32_le(p.salience_bits)[3]);
    assert(b[8] == u32_le(p.count)[0] && b[9] == u32_le(p.count)[1] && b[10] == u32_le(
        p.count,
    )[2] && b[11] == u32_le(p.count)[3]);
    assert(b[16] == p.n);
}

/// Reading back a written table gives the records, in order.
pub proof fn lemma_table_round_trip(ps: Seq<Payload>)
    ensures
        table_bytes(ps).len() == 17 * ps.len(),
        records_of(table_bytes(ps)) == ps,
    decreases ps.len(),
{
    if ps.len() > 0 {
        let init = ps.drop_last();
        let n = init.len();
        lemma_table_round_trip(init);
        lemma_record_round_trip(ps.last());
        let head = table_bytes(init);
        let b = table_bytes(ps);
        assert(b == head + record_bytes(ps.last()));
        assert(b.len() == 17 * n + 17);
        assert(b.len() / 17 == n + 1) by (nonlinear_arith)
            requires
                b.len() == 17 * n + 17,
        ;
        assert forall|i: int| 0 <= i < ps.len() implies #[trigger] records_of(b)[i] == ps[i] by {
            assert(17 * i + 17 <= 17 * n + 17) by (nonlinear_arith)
                requires
                    i <= n,
            ;
            if i < n {
                assert(17 * i + 17 <= 17 * n) by (nonlinear_arith)
                    requires
                        i < n,
                ;
                assert(head.len() / 17 == n) by (nonlinear_arith)
                    requires
                        head.len() == 17 * n,
                ;
                assert(b.subrange(17 * i, 17 * i + 17) =~= head.subrange(17 * i, 17 * i + 17));
                assert(records_of(head)[i] == init[i]);
            } else {
                assert(b.subrange(17 * i, 17 * i + 17) =~= record_bytes(ps.last()));
            }
        }
        assert(records_of(b) =~= ps);
    } else {
        assert(records_of(table_bytes(ps)) =~= ps);
    }
}

impl Payload {
    pub fn new(phrase_id: u32, salience_bits: u32, count: u32, n: u8) -> (p: Payload)
        ensures
            p == (Payload { phrase_id, salience_bits, count, n }),
    {
        Payload { phrase_id, salience_bits, count, n }
    }

    /// Appends this record's 17 bytes; the reserved bytes are written as zeros.
    pub fn write_to(&self, out: &mut Vec<u8>)
        ensures
            final(out)@ == old(out)@ + record_bytes(*self),
    {
        push_u32_le(out, self.phrase_id);
        push_u32_le(out, self.salience_bits);
        push_u32_le(out, self.count);
        out.push(0u8);
        out.push(0u8);
        out.push(0u8);
        out.push(0u8);
        out.push(self.n);
        assert(final(out)@ =~= old(out)@ + record_bytes(*self));
    }

    /// Reads the record at the front of `source`, or `None` when fewer than 17
    /// bytes remain.
    pub fn read_from(source: &[u8]) -> (r: Option<Payload>)
        ensures
            source@.len() < 17 ==> r is None,
            source@.len() >= 17 ==> r == Some(record_of(source@.subrange(0, 17))),
    {
        read_at(source, 0)
    }
}

fn u32_at(b: &[u8], i: usize) -> (x: u32)
    requires
        i + 4 <= b@.len(),
    ensures
        x == u32_of_le(b@[i as int], b@[i + 1], b@[i + 2], b@[i + 3]),
{
    (b[i] as u32) | ((b[i + 1] as u32) << 8u32) | ((b[i + 2] as u32) << 16u32) | ((b[i + 3] as u32)
        << 24u32)
}

/// Reads the record that starts at byte `pos`.
fn read_at(b: &[u8], pos: usize) -> (r: Option<Payload>)
    ensures
        pos + 17 > b@.len() ==> r is None,
        pos + 17 <= b@.len() ==> r == Some(record_of(b@.subrange(pos as int, pos + 17))),
{
    if pos > b.len() || b.len() - pos < RECORD_WIDTH {
        return None;
    }
    let p = Payload {
        phrase_id: u32_at(b, pos),
        salience_bits: u32_at(b, pos + 4),
        count: u32_at(b, pos + 8),
        n: b[pos + 16],
    };
    let ghost rec = b@.subrange(pos as int, pos + 17);
    assert(p == record_of(rec));
    Some(p)
}

/// Reads a whole payload table. A table whose length is not a multiple of 17
/// ends inside a record and is refused.
pub fn load_payloads(source: &[u8]) -> (r: Result<Vec<Payload>, PayloadError>)
    ensures
        source@.len() % 17 != 0 ==> r == Err::<Vec<Payload>, PayloadError>(
            PayloadError::TruncatedRecord,
        ),
        source@.len() % 17 == 0 ==> r is Ok && r->Ok_0@ == records_of(source@),
{
    if source.len() % RECORD_WIDTH != 0 {
        return Err(PayloadError::TruncatedRecord);
    }
    let count = source.len() / RECORD_WIDTH;
    assert(17 * count == source@.len()) by (nonlinear_arith)
        requires
            count == source@.len() / 17,
            source@.len() % 17 == 0,
    ;
    let mut out: Vec<Payload> = Vec::new();
    let mut i: usize = 0;
    let mut pos: usize = 0;
    while i < count
        invariant
            count == source@.len() / 17,
            17 * count == source@.len(),
            source@.len() <= usize::MAX,
            i <= count,
            pos == 17 * i,
            out@ == records_of(source@).subrange(0, i as int),
        decreases count - i,
    {
        assert(17 * i + 17 <= 17 * count) by (nonlinear_arith)
            requires
                i < count,
        ;
        let rec = read_at(source, pos);
        match rec {
            Some(p) => {
                out.push(p);
            },
            None => {
                assert(false);
            },
        }
        assert(out@ =~= records_of(source@).subrange(0, i + 1));
        i = i + 1;
        pos = pos + 17;
    }
    assert(out@ =~= records_of(source@));
    Ok(out)
}

/// Writes a whole payload table, records in order.
pub fn write_payloads(payloads: &[Payload]) -> (bytes: Vec<u8>)
    ensures
        bytes@ == table_bytes(payloads@),
{
    let mut bytes: Vec<u8> = Vec::new();
    let mut i: usize = 0;
    while i < payloads.len()
        invariant
            i <= payloads@.len(),
            bytes@ == table_bytes(payloads@.subrange(0, i as int)),
        decreases payloads.len() - i,
    {
        payloads[i].write_to(&mut bytes);
        assert(payloads@.subrange(0, i + 1).drop_last() =~= payloads@.subrange(0, i as int));
        i = i + 1;
    }
    assert(payloads@.subrange(0, payloads@.len() as int) =~= payloads@);
    bytes
}

/// Order key of an `f32` given by its bits: for any two floats that are not
/// NaN, the greater float has the greater key, and the keys of `+0.0` and
/// `-0.0` are adjacent.
pub open spec fn order_key(bits: u32) -> u32 {
    if bits >= 0x8000_0000 {
        (0xffff_ffff - bits) as u32
    } else {
        (bits + 0x8000_0000) as u32
    }
}

/// Maps the bits of a derived salience score to its order key.
pub fn score_order_key(score_bits: u32) -> (k: u32)
    ensures
        k == order_key(score_bits),
{
    if score_bits >= 0x8000_0000 {
        0xffff_ffff - score_bits
    } else {
        score_bits + 0x8000_0000
    }
}

} // verus!

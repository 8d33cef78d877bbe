// The records stored in the two tables, written and read with bincode's default
// layout: a metadata record holds a declared size, a payload record the payload.
use vstd::prelude::*;

verus! {

#[verifier::external_type_specification]
#[verifier::external_body]
pub struct ExErrorKind(bincode::ErrorKind);

/// The `w` low bytes of `n`, least significant first.
pub open spec fn le_bytes(n: nat, w: nat) -> Seq<u8>
    decreases w,
{
    if w == 0 {
        Seq::empty()
    } else {
        seq![(n % 256) as u8] + le_bytes(n / 256, (w - 1) as nat)
    }
}

/// The number that `s` writes, least significant byte first.
pub open spec fn le_value(s: Seq<u8>) -> nat
    decreases s.len(),
{
    if s.len() == 0 {
        0
    } else {
        s[0] as nat + 256 * le_value(s.drop_first())
    }
}

/// A payload as stored: its length in eight bytes, then the bytes themselves.
pub open spec fn frame(p: Seq<u8>) -> Seq<u8> {
    le_bytes(p.len(), 8) + p
}

/// The payload that a stored byte string frames, if its length prefix fits.
/// Bytes past the framed payload are ignored.
pub open spec fn unframe(b: Seq<u8>) -> Option<Seq<u8>> {
    if b.len() >= 8 && le_value(b.take(8)) <= b.len() - 8 {
        Some(b.subrange(8, 8 + le_value(b.take(8)) as int))
    } else {
        None
    }
}

/// The declared size that a metadata record holds, if it is wide enough.
/// Bytes past the first four are ignored.
pub open spec fn size_of_record(b: Seq<u8>) -> Option<u32> {
    if b.len() >= 4 {
        Some(le_value(b.take(4)) as u32)
    } else {
        None
    }
}

/// Relies on bincode::serialize: with the default options a `u32` is written as
/// its four bytes, least significant first, and no size limit applies.
#[verifier::external_body]
fn serialize_u32(n: u32) -> (r: Result<Vec<u8>, bincode::Error>)
    ensures
        r is Ok,
        r matches Ok(v) ==> v@ == le_bytes(n as nat, 4),
{
    bincode::serialize(&n)
}

/// Relies on bincode::deserialize: a `u32` is read from the first four bytes,
/// least significant first; later bytes are allowed; fewer bytes are an error.
#[verifier::external_body]
fn deserialize_u32(b: &[u8]) -> (r: Result<u32, bincode::Error>)
    ensures
        r is Ok == (b@.len() >= 4),
        r matches Ok(v) ==> v as nat == le_value(b@.take(4)),
{
    bincode::deserialize::<u32>(b)
}

/// Relies on bincode::serialize: with the default options a byte vector is
/// written as its length in eight bytes, least significant first, then its
/// bytes, and no size limit applies.
#[verifier::external_body]
fn serialize_bytes(p: &Vec<u8>) -> (r: Result<Vec<u8>, bincode::Error>)
    ensures
        r is Ok,
        r matches Ok(v) ==> v@ == frame(p@),
{
    bincode::serialize(p)
}

/// Relies on bincode::deserialize: a byte vector is read as an eight-byte
/// length, least significant first, then that many bytes; later bytes are
/// allowed; a short input is an error.
#[verifier::external_body]
fn deserialize_bytes(b: &[u8]) -> (r: Result<Vec<u8>, bincode::Error>)
    ensures
        r is Ok == unframe(b@) is Some,
        r matches Ok(v) ==> unframe(b@) == Some(v@),
{
    bincode::deserialize::<Vec<u8>>(b)
}

/// Why a stored record could not be written or read back.
#[derive(Debug, Clone, Copy, PartialEq, Eq, Structural)]
pub enum RecordError {
    /// The codec refused to write the value.
    Serialize,
    /// The stored bytes do not hold a record of the expected layout.
    Decode,
}

/// The metadata record for a message of `size` bytes.
pub fn metadata_record(size: u32) -> (r: Result<Vec<u8>, RecordError>)
    ensures
        r matches Ok(v) && v@ == le_bytes(size as nat, 4),
{
    match serialize_u32(size) {
        Ok(v) => Ok(v),
        Err(_) => Err(RecordError::Serialize),
    }
}

/// The declared size held by a metadata record.
pub fn read_metadata_record(b: &[u8]) -> (r: Result<u32, RecordError>)
    ensures
        match r {
            Ok(n) => size_of_record(b@) == Some(n),
            Err(e) => size_of_record(b@) is None && e == RecordError::Decode,
        },
{
    match deserialize_u32(b) {
        Ok(n) => {
            assert(le_value(b@.take(4)) as u32 == n);
            Ok(n)
        },
        Err(_) => Err(RecordError::Decode),
    }
}

/// The payload record for `payload`.
pub fn payload_record(payload: &Vec<u8>) -> (r: Result<Vec<u8>, RecordError>)
    ensures
        r matches Ok(v) && v@ == frame(payload@),
{
    match serialize_bytes(payload) {
        Ok(v) => Ok(v),
        Err(_) => Err(RecordError::Serialize),
    }
}

/// The payload held by a payload record.
pub fn read_payload_record(b: &[u8]) -> (r: Result<Vec<u8>, RecordError>)
    ensures
        match r {
            Ok(p) => unframe(b@) == Some(p@),
            Err(e) => unframe(b@) is None && e == RecordError::Decode,
        },
{
    match deserialize_bytes(b) {
        Ok(p) => Ok(p),
        Err(_) => Err(RecordError::Decode),
    }
}

/// Reading back the `w` bytes of `n` gives `n`.
pub proof fn lemma_le_round_trip(n: nat, w: nat)
    requires
        n < crate::id::pow256(w),
    ensures
        le_bytes(n, w).len() == w,
        le_value(le_bytes(n, w)) == n,
    decreases w,
{
    if w > 0 {
        let p = crate::id::pow256((w - 1) as nat);
        assert(n / 256 < p) by (nonlinear_arith)
            requires
                n < 256 * p,
        ;
        lemma_le_round_trip(n / 256, (w - 1) as nat);
        let s = le_bytes(n, w);
        assert(s.drop_first() =~= le_bytes(n / 256, (w - 1) as nat));
        assert(s[0] as nat == n % 256);
    }
}

/// A payload record reads back as the payload it was written from.
pub proof fn lemma_frame_round_trip(p: Seq<u8>)
    requires
        p.len() <= usize::MAX,
    ensures
        unframe(frame(p)) == Some(p),
{
    reveal_with_fuel(crate::id::pow256, 9);
    lemma_le_round_trip(p.len(), 8);
    let f = frame(p);
    assert(f.take(8) =~= le_bytes(p.len(), 8));
    assert(f.subrange(8, 8 + p.len() as int) =~= p);
}

/// A metadata record reads back as the size it was written from.
pub proof fn lemma_size_round_trip(n: u32)
    ensures
        le_bytes(n as nat, 4).len() == 4,
        size_of_record(le_bytes(n as nat, 4)) == Some(n),
{
    crate::id::lemma_pow256_values();
    lemma_le_round_trip(n as nat, 4);
    assert(le_bytes(n as nat, 4).take(4) =~= le_bytes(n as nat, 4));
}

} // verus!

// The storage adapter over a metadata table and a payload table: what each
// operation writes and how what it reads is turned into a result, with the
// tables modelled as maps from key bytes to record bytes.
use vstd::prelude::*;
use crate::id::{Id, KEY_LEN, key_id, lemma_key_injective, lemma_key_order, lemma_round_trip, lex_lt};
use crate::record::{
    frame,
    le_bytes,
    metadata_record,
    payload_record,
    read_metadata_record,
    read_payload_record,
    lemma_frame_round_trip,
    lemma_size_round_trip,
    size_of_record,
    unframe,
};

verus! {

/// The failures that the storage adapter reports.
#[derive(Debug, Clone, Copy, PartialEq, Eq, Structural)]
pub enum StoreError {
    /// A table could not be created or opened.
    OpenFailure,
    /// A value could not be written by the record codec.
    SerializationFailure,
    /// The storage engine reported an error.
    EngineFailure,
    /// No message is stored under the identity.
    NotFound,
    /// Stored bytes do not have the expected layout.
    DecodeFailure,
}

/// What the two tables hold: key bytes to record bytes.
pub struct Tables {
    pub metadata: Map<Seq<u8>, Seq<u8>>,
    pub payloads: Map<Seq<u8>, Seq<u8>>,
}

impl Tables {
    pub open spec fn empty() -> Tables {
        Tables { metadata: Map::empty(), payloads: Map::empty() }
    }

    /// The tables after storing a message: its metadata record and its payload
    /// record under its key, replacing what was there.
    pub open spec fn add(self, id: Id, payload: Seq<u8>, size: u32) -> Tables {
        Tables {
            metadata: self.metadata.insert(id.key(), le_bytes(size as nat, 4)),
            payloads: self.payloads.insert(id.key(), frame(payload)),
        }
    }

    /// The tables after removing a message's records from both tables.
    pub open spec fn delete(self, id: Id) -> Tables {
        Tables { metadata: self.metadata.remove(id.key()), payloads: self.payloads.remove(id.key()) }
    }

    /// What reading a message's payload gives.
    pub open spec fn get(self, id: Id) -> Result<Seq<u8>, StoreError> {
        read_outcome(
            if self.payloads.contains_key(id.key()) {
                Some(self.payloads[id.key()])
            } else {
                None
            },
        )
    }

    /// The tables after a run of `add`s, applied in order.
    pub open spec fn add_all(self, adds: Seq<(Id, Seq<u8>, u32)>) -> Tables
        decreases adds.len(),
    {
        if adds.len() == 0 {
            self
        } else {
            let last = adds.last();
            self.add_all(adds.drop_last()).add(last.0, last.1, last.2)
        }
    }
}

/// What a lookup in the payload table comes to.
pub open spec fn read_outcome(found: Option<Seq<u8>>) -> Result<Seq<u8>, StoreError> {
    match found {
        None => Err(StoreError::NotFound),
        Some(b) => match unframe(b) {
            Some(p) => Ok(p),
            None => Err(StoreError::DecodeFailure),
        },
    }
}

/// A full scan of `table`: every entry once, in strictly ascending key order.
pub open spec fn is_scan(table: Map<Seq<u8>, Seq<u8>>, entries: Seq<(Seq<u8>, Seq<u8>)>) -> bool {
    &&& forall|i: int, j: int|
        0 <= i < j < entries.len() ==> lex_lt(#[trigger] entries[i].0, #[trigger] entries[j].0)
    &&& forall|i: int|
        0 <= i < entries.len() ==> table.contains_key(#[trigger] entries[i].0) && table[entries[i].0]
            == entries[i].1
    &&& forall|k: Seq<u8>|
        table.contains_key(k) ==> exists|i: int| 0 <= i < entries.len() && #[trigger] entries[i].0 == k
}

/// The identity and declared size that one metadata entry holds, if it decodes.
pub open spec fn entry_pair(e: (Seq<u8>, Seq<u8>)) -> Option<(Id, u32)> {
    if e.0.len() == KEY_LEN && size_of_record(e.1) is Some {
        Some((key_id(e.0), size_of_record(e.1)->0))
    } else {
        None
    }
}

/// What decoding a scan of the metadata table comes to: every entry decoded, in
/// order, or a decode failure if any one entry does not decode.
pub open spec fn fetch_outcome(entries: Seq<(Seq<u8>, Seq<u8>)>) -> Result<Seq<(Id, u32)>, StoreError> {
    if forall|i: int| 0 <= i < entries.len() ==> (#[trigger] entry_pair(entries[i])) is Some {
        Ok(entries.map_values(|e: (Seq<u8>, Seq<u8>)| entry_pair(e)->0))
    } else {
        Err(StoreError::DecodeFailure)
    }
}

pub open spec fn view_found(found: Option<Vec<u8>>) -> Option<Seq<u8>> {
    match found {
        Some(v) => Some(v@),
        None => None,
    }
}

pub open spec fn view_entries(entries: Seq<(Vec<u8>, Vec<u8>)>) -> Seq<(Seq<u8>, Seq<u8>)> {
    entries.map_values(|e: (Vec<u8>, Vec<u8>)| (e.0@, e.1@))
}

/// The three byte strings that storing one message writes.
pub struct AddPlan {
    /// The key, in both tables.
    pub key: Vec<u8>,
    /// The record for the metadata table.
    pub metadata: Vec<u8>,
    /// The record for the payload table.
    pub payload: Vec<u8>,
}

/// The writes that store `payload` with declared size `size` under `id`.
pub fn plan_add(id: &Id, payload: &Vec<u8>, size: u32) -> (r: Result<AddPlan, StoreError>)
    ensures
        r is Ok,
        r matches Ok(plan) ==> forall|t: Tables|
            #[trigger] t.add(*id, payload@, size) == (Tables {
                metadata: t.metadata.insert(plan.key@, plan.metadata@),
                payloads: t.payloads.insert(plan.key@, plan.payload@),
            }),
        r matches Ok(plan) ==> plan.key@ == id.key() && plan.metadata@ == le_bytes(size as nat, 4)
            && plan.payload@ == frame(payload@),
{
    let key = id.encode();
    let metadata = match metadata_record(size) {
        Ok(m) => m,
        Err(_) => return Err(StoreError::SerializationFailure),
    };
    let body = match payload_record(payload) {
        Ok(b) => b,
        Err(_) => return Err(StoreError::SerializationFailure),
    };
    Ok(AddPlan { key, metadata, payload: body })
}

/// The payload that a lookup in the payload table gave: `NotFound` when
/// nothing was stored, `DecodeFailure` when the record does not decode.
pub fn read_payload(found: Option<Vec<u8>>) -> (r: Result<Vec<u8>, StoreError>)
    ensures
        match r {
            Ok(p) => read_outcome(view_found(found)) == Ok::<Seq<u8>, StoreError>(p@),
            Err(e) => read_outcome(view_found(found)) == Err::<Seq<u8>, StoreError>(e),
        },
{
    match found {
        None => Err(StoreError::NotFound),
        Some(b) => match read_payload_record(b.as_slice()) {
            Ok(p) => Ok(p),
            Err(_) => Err(StoreError::DecodeFailure),
        },
    }
}

/// The identities and declared sizes of a scan of the metadata table, in scan
/// order; fails as a whole when any one entry does not decode.
pub fn read_metadata(entries: &Vec<(Vec<u8>, Vec<u8>)>) -> (r: Result<Vec<(Id, u32)>, StoreError>)
    ensures
        match r {
            Ok(v) => fetch_outcome(view_entries(entries@)) == Ok::<Seq<(Id, u32)>, StoreError>(v@),
            Err(e) => fetch_outcome(view_entries(entries@)) == Err::<Seq<(Id, u32)>, StoreError>(e),
        },
{
    let ghost ve = view_entries(entries@);
    let mut out: Vec<(Id, u32)> = Vec::new();
    let mut i: usize = 0;
    while i < entries.len()
        invariant
            i <= entries@.len(),
            ve == view_entries(entries@),
            out@.len() == i,
            forall|j: int| 0 <= j < i ==> (#[trigger] entry_pair(ve[j])) is Some && out@[j] == entry_pair(ve[j])->0,
        decreases entries.len() - i,
    {
        let entry = &entries[i];
        assert(ve[i as int] == (entry.0@, entry.1@));
        let id = match Id::decode(entry.0.as_slice()) {
            Ok(id) => id,
            Err(_) => {
                assert(entry_pair(ve[i as int]) is None);
                return Err(StoreError::DecodeFailure);
            },
        };
        let size = match read_metadata_record(entry.1.as_slice()) {
            Ok(n) => n,
            Err(_) => {
                assert(entry_pair(ve[i as int]) is None);
                return Err(StoreError::DecodeFailure);
            },
        };
        out.push((id, size));
        i = i + 1;
    }
    assert(out@ =~= ve.map_values(|e: (Seq<u8>, Seq<u8>)| entry_pair(e)->0));
    Ok(out)
}

/// Write then read: right after a message is stored, reading it gives back its
/// payload exactly.
pub proof fn lemma_add_then_get(t: Tables, id: Id, payload: Seq<u8>, size: u32)
    requires
        payload.len() <= usize::MAX,
    ensures
        t.add(id, payload, size).get(id) == Ok::<Seq<u8>, StoreError>(payload),
{
    lemma_frame_round_trip(payload);
}

/// Delete then read: after a message is deleted, reading it reports `NotFound`.
pub proof fn lemma_delete_then_get(t: Tables, id: Id)
    ensures
        t.delete(id).get(id) == Err::<Seq<u8>, StoreError>(StoreError::NotFound),
{
}

/// Deleting a message that is not stored changes neither table.
pub proof fn lemma_delete_absent(t: Tables, id: Id)
    requires
        !t.metadata.contains_key(id.key()),
        !t.payloads.contains_key(id.key()),
    ensures
        t.delete(id) == t,
{
    assert(t.delete(id).metadata =~= t.metadata);
    assert(t.delete(id).payloads =~= t.payloads);
}

/// No identity is added twice.
pub open spec fn distinct_ids(adds: Seq<(Id, Seq<u8>, u32)>) -> bool {
    forall|i: int, j: int| 0 <= i < j < adds.len() ==> (#[trigger] adds[i]).0 != (#[trigger] adds[j]).0
}

/// After adds of distinct identities into empty tables, the metadata table
/// maps the key of each added identity to the record of its size, and holds
/// nothing else.
proof fn lemma_add_all_metadata(adds: Seq<(Id, Seq<u8>, u32)>)
    requires
        distinct_ids(adds),
    ensures
        forall|k: Seq<u8>|
            Tables::empty().add_all(adds).metadata.contains_key(k) ==> exists|i: int|
                0 <= i < adds.len() && (#[trigger] adds[i]).0.key() == k,
        forall|i: int|
            0 <= i < adds.len() ==> Tables::empty().add_all(adds).metadata.contains_key(
                (#[trigger] adds[i]).0.key(),
            ) && Tables::empty().add_all(adds).metadata[adds[i].0.key()] == le_bytes(
                adds[i].2 as nat,
                4,
            ),
    decreases adds.len(),
{
    if adds.len() > 0 {
        let prev = adds.drop_last();
        let n = adds.len() - 1;
        let last = adds.last();
        assert(distinct_ids(prev)) by {
            assert forall|i: int, j: int| 0 <= i < j < prev.len() implies (#[trigger] prev[i]).0
                != (#[trigger] prev[j]).0 by {
                assert(prev[i] == adds[i] && prev[j] == adds[j]);
            }
        }
        lemma_add_all_metadata(prev);
        let m = Tables::empty().add_all(adds).metadata;
        let pm = Tables::empty().add_all(prev).metadata;
        assert(m == pm.insert(last.0.key(), le_bytes(last.2 as nat, 4)));
        assert forall|i: int| 0 <= i < adds.len() implies m.contains_key(
            (#[trigger] adds[i]).0.key(),
        ) && m[adds[i].0.key()] == le_bytes(adds[i].2 as nat, 4) by {
            if i < n {
                assert(prev[i] == adds[i]);
                lemma_key_injective(adds[i].0, last.0);
            }
        }
        assert forall|k: Seq<u8>| m.contains_key(k) implies exists|i: int|
            0 <= i < adds.len() && (#[trigger] adds[i]).0.key() == k by {
            if k == last.0.key() {
                assert(adds[n].0.key() == k);
            } else {
                let i = choose|i: int| 0 <= i < prev.len() && (#[trigger] prev[i]).0.key() == k;
                assert(prev[i] == adds[i]);
            }
        }
    }
}

/// Metadata completeness: after adds of distinct identities into empty tables,
/// a full scan of the metadata table decodes, and gives exactly the pairs of
/// identity and declared size that were added, in ascending identity order.
pub proof fn lemma_fetch_after_adds(
    adds: Seq<(Id, Seq<u8>, u32)>,
    entries: Seq<(Seq<u8>, Seq<u8>)>,
)
    requires
        distinct_ids(adds),
        is_scan(Tables::empty().add_all(adds).metadata, entries),
    ensures
        fetch_outcome(entries) is Ok,
        forall|i: int, j: int|
            0 <= i < j < entries.len() ==> (#[trigger] fetch_outcome(entries)->Ok_0[i]).0.precedes(
                (#[trigger] fetch_outcome(entries)->Ok_0[j]).0,
            ),
        forall|i: int|
            0 <= i < adds.len() ==> fetch_outcome(entries)->Ok_0.contains(
                ((#[trigger] adds[i]).0, adds[i].2),
            ),
        forall|j: int|
            0 <= j < fetch_outcome(entries)->Ok_0.len() ==> exists|i: int|
                0 <= i < adds.len() && (#[trigger] fetch_outcome(entries)->Ok_0[j]) == (
                (#[trigger] adds[i]).0,
                adds[i].2,
            ),
{
    let m = Tables::empty().add_all(adds).metadata;
    lemma_add_all_metadata(adds);
    assert forall|j: int| 0 <= j < entries.len() implies (#[trigger] entry_pair(entries[j])) is Some
        && exists|i: int|
        0 <= i < adds.len() && entry_pair(entries[j])->0 == ((#[trigger] adds[i]).0, adds[i].2)
            && adds[i].0.key() == entries[j].0 by {
        let k = entries[j].0;
        assert(m.contains_key(k));
        let i = choose|i: int| 0 <= i < adds.len() && (#[trigger] adds[i]).0.key() == k;
        lemma_round_trip(adds[i].0);
        lemma_size_round_trip(adds[i].2);
    }
    let out = entries.map_values(|e: (Seq<u8>, Seq<u8>)| entry_pair(e)->0);
    assert(fetch_outcome(entries) == Ok::<Seq<(Id, u32)>, StoreError>(out));
    assert forall|i: int, j: int| 0 <= i < j < entries.len() implies (#[trigger] out[i]).0.precedes(
        (#[trigger] out[j]).0,
    ) by {
        let a = choose|a: int|
            0 <= a < adds.len() && entry_pair(entries[i])->0 == ((#[trigger] adds[a]).0, adds[a].2)
                && adds[a].0.key() == entries[i].0;
        let b = choose|b: int|
            0 <= b < adds.len() && entry_pair(entries[j])->0 == ((#[trigger] adds[b]).0, adds[b].2)
                && adds[b].0.key() == entries[j].0;
        assert(out[i].0 == adds[a].0 && out[j].0 == adds[b].0);
        lemma_round_trip(adds[a].0);
        lemma_round_trip(adds[b].0);
        assert(lex_lt(entries[i].0, entries[j].0));
        lemma_key_order(adds[a].0, adds[b].0);
    }
    assert forall|i: int| 0 <= i < adds.len() implies out.contains(((#[trigger] adds[i]).0, adds[i].2)) by {
        let k = adds[i].0.key();
        assert(m.contains_key(k));
        let j = choose|j: int| 0 <= j < entries.len() && #[trigger] entries[j].0 == k;
        lemma_round_trip(adds[i].0);
        lemma_size_round_trip(adds[i].2);
        assert(out[j] == (adds[i].0, adds[i].2));
    }
}

} // verus!

//! The persisted form of the position records: for each tracked transaction
//! its identifier, its height and the positions of its notes.

use vstd::prelude::*;
use vstd::bytes::{spec_u32_to_le_bytes, spec_u64_to_le_bytes};
use crate::codec::{
    dec_bytes, dec_compact, dec_u32, dec_u64, holds_at, lemma_dec_compact, lemma_dec_u32,
    lemma_dec_u64, lemma_holds_split, read_bytes32, read_compact, read_u32, read_u64,
    write_bytes, write_compact, write_u32, write_u64, MAX_COMPACT_SIZE,
};
use crate::frontier::compact_size;
use crate::wallet::{NotePositions, TxRecord};

verus! {

/// One record as it is persisted: the transaction, its height, and its notes
/// as pairs of an output index and a leaf position.
pub struct RecordModel {
    pub txid: Seq<u8>,
    pub tx_height: u32,
    pub notes: Seq<(usize, u64)>,
}

/// A note as bytes: the output index in four bytes, the position in eight.
pub open spec fn enc_note(note: (usize, u64)) -> Seq<u8> {
    spec_u32_to_le_bytes(note.0 as u32) + spec_u64_to_le_bytes(note.1)
}

/// The notes one after the other.
pub open spec fn enc_note_items(notes: Seq<(usize, u64)>) -> Seq<u8>
    decreases notes.len(),
{
    if notes.len() == 0 {
        Seq::empty()
    } else {
        enc_note_items(notes.drop_last()) + enc_note(notes.last())
    }
}

/// A list of notes: its length in compact form, then the notes.
pub open spec fn enc_notes(notes: Seq<(usize, u64)>) -> Seq<u8> {
    compact_size(notes.len()) + enc_note_items(notes)
}

/// The notes can be written: not too many, and each index fits four bytes.
pub open spec fn notes_encodable(notes: Seq<(usize, u64)>) -> bool {
    &&& notes.len() <= MAX_COMPACT_SIZE
    &&& forall|i: int| 0 <= i < notes.len() ==> (#[trigger] notes[i]).0 <= u32::MAX
}

/// One note read at `p`.
pub open spec fn dec_note(b: Seq<u8>, p: int) -> Option<((usize, u64), int)> {
    match dec_u32(b, p) {
        None => None,
        Some((idx, q)) => match dec_u64(b, q) {
            None => None,
            Some((position, r)) => Some(((idx as usize, position), r)),
        },
    }
}

/// `n` notes read from `p` on.
pub open spec fn dec_note_items(b: Seq<u8>, p: int, n: nat) -> Option<(Seq<(usize, u64)>, int)>
    decreases n,
{
    if n == 0 {
        Some((Seq::empty(), p))
    } else {
        match dec_note_items(b, p, (n - 1) as nat) {
            None => None,
            Some((notes, q)) => match dec_note(b, q) {
                None => None,
                Some((note, r)) => Some((notes.push(note), r)),
            },
        }
    }
}

/// A list of notes read at `p`.
pub open spec fn dec_notes(b: Seq<u8>, p: int) -> Option<(Seq<(usize, u64)>, int)> {
    match dec_compact(b, p) {
        None => None,
        Some((n, q)) => dec_note_items(b, q, n),
    }
}

/// Once the reading of notes has failed, it fails for every longer list.
pub proof fn lemma_dec_note_items_fails(b: Seq<u8>, p: int, i: nat, n: nat)
    requires
        i <= n,
        dec_note_items(b, p, i).is_none(),
    ensures
        dec_note_items(b, p, n).is_none(),
    decreases n,
{
    if i < n {
        lemma_dec_note_items_fails(b, p, i, (n - 1) as nat);
    }
}

/// Reading notes where they were written gives them back.
pub proof fn lemma_dec_note_items(b: Seq<u8>, p: int, notes: Seq<(usize, u64)>)
    requires
        holds_at(b, p, enc_note_items(notes)),
        forall|i: int| 0 <= i < notes.len() ==> (#[trigger] notes[i]).0 <= u32::MAX,
    ensures
        dec_note_items(b, p, notes.len()) == Some((notes, p + enc_note_items(notes).len())),
    decreases notes.len(),
{
    if notes.len() > 0 {
        let front = notes.drop_last();
        let last = notes.last();
        lemma_holds_split(b, p, enc_note_items(front), enc_note(last));
        lemma_dec_note_items(b, p, front);
        let q = p + enc_note_items(front).len();
        lemma_holds_split(b, q, spec_u32_to_le_bytes(last.0 as u32), spec_u64_to_le_bytes(last.1));
        lemma_dec_u32(b, q, last.0 as u32);
        lemma_dec_u64(b, q + 4, last.1);
        assert(front.push(last) =~= notes);
        assert((last.0 as u32) as usize == last.0);
    }
}

/// Reading a list of notes where it was written gives it back.
pub proof fn lemma_dec_notes(b: Seq<u8>, p: int, notes: Seq<(usize, u64)>)
    requires
        holds_at(b, p, enc_notes(notes)),
        notes_encodable(notes),
    ensures
        dec_notes(b, p) == Some((notes, p + enc_notes(notes).len())),
{
    lemma_holds_split(b, p, compact_size(notes.len()), enc_note_items(notes));
    lemma_dec_compact(b, p, notes.len());
    lemma_dec_note_items(b, p + compact_size(notes.len()).len(), notes);
}

/// Whether the notes can be written.
pub fn notes_fit(notes: &Vec<(usize, u64)>) -> (b: bool)
    ensures
        b == notes_encodable(notes@),
{
    if notes.len() > MAX_COMPACT_SIZE {
        return false;
    }
    let mut i: usize = 0;
    while i < notes.len()
        invariant
            i <= notes@.len(),
            forall|k: int| 0 <= k < i ==> (#[trigger] notes@[k]).0 <= u32::MAX,
        decreases notes@.len() - i,
    {
        if notes[i].0 > 0xFFFF_FFFF {
            return false;
        }
        i += 1;
    }
    true
}

/// Appends a list of notes.
pub fn write_notes(out: &mut Vec<u8>, notes: &Vec<(usize, u64)>)
    requires
        notes_encodable(notes@),
    ensures
        final(out)@ == old(out)@ + enc_notes(notes@),
{
    write_compact(out, notes.len());
    let ghost head = out@;
    let mut i: usize = 0;
    proof {
        assert(notes@.take(0) =~= Seq::empty());
        assert(out@ =~= head + enc_note_items(notes@.take(0)));
    }
    while i < notes.len()
        invariant
            i <= notes@.len(),
            notes_encodable(notes@),
            out@ == head + enc_note_items(notes@.take(i as int)),
        decreases notes@.len() - i,
    {
        let ghost before = out@;
        let note = notes[i];
        write_u32(out, note.0 as u32);
        write_u64(out, note.1);
        proof {
            assert(notes@.take(i + 1).drop_last() =~= notes@.take(i as int));
            assert(notes@.take(i + 1).last() == notes@[i as int]);
            assert(out@ =~= head + enc_note_items(notes@.take(i + 1)));
        }
        i += 1;
    }
    proof {
        assert(notes@.take(notes@.len() as int) =~= notes@);
        assert(out@ =~= old(out)@ + enc_notes(notes@));
    }
}

/// Reads a list of notes at `p`.
pub fn read_notes(b: &[u8], p: usize) -> (r: Option<(Vec<(usize, u64)>, usize)>)
    ensures
        match r {
            Some((notes, q)) => dec_notes(b@, p as int) == Some((notes@, q as int)),
            None => dec_notes(b@, p as int).is_none(),
        },
{
    let (count, start) = match read_compact(b, p) {
        Some(v) => v,
        None => {
            return None;
        },
    };
    let mut notes: Vec<(usize, u64)> = Vec::new();
    let mut q: usize = start;
    let mut i: usize = 0;
    while i < count
        invariant
            i <= count,
            dec_compact(b@, p as int) == Some((count as nat, start as int)),
            dec_note_items(b@, start as int, i as nat) == Some((notes@, q as int)),
        decreases count - i,
    {
        let (idx, after_idx) = match read_u32(b, q) {
            Some(v) => v,
            None => {
                proof {
                    assert(dec_note_items(b@, start as int, (i + 1) as nat).is_none());
                    lemma_dec_note_items_fails(b@, start as int, (i + 1) as nat, count as nat);
                }
                return None;
            },
        };
        let (position, after) = match read_u64(b, after_idx) {
            Some(v) => v,
            None => {
                proof {
                    assert(dec_note_items(b@, start as int, (i + 1) as nat).is_none());
                    lemma_dec_note_items_fails(b@, start as int, (i + 1) as nat, count as nat);
                }
                return None;
            },
        };
        notes.push((idx as usize, position));
        q = after;
        i += 1;
    }
    Some((notes, q))
}

/// A record as it is held, as a persisted record.
pub open(crate) spec fn record_model(record: TxRecord) -> RecordModel {
    RecordModel {
        txid: record.txid@,
        tx_height: record.notes.tx_height,
        notes: record.notes.note_positions@,
    }
}

/// Records as they are held, as persisted records.
pub open spec fn record_models(records: Seq<TxRecord>) -> Seq<RecordModel> {
    Seq::new(records.len(), |i: int| record_model(records[i]))
}

/// A record as bytes: the transaction identifier in 32 bytes, the height in
/// four, and the list of its notes.
pub open spec fn enc_record(record: RecordModel) -> Seq<u8> {
    record.txid + spec_u32_to_le_bytes(record.tx_height) + enc_notes(record.notes)
}

/// The records one after the other.
pub open spec fn enc_record_items(records: Seq<RecordModel>) -> Seq<u8>
    decreases records.len(),
{
    if records.len() == 0 {
        Seq::empty()
    } else {
        enc_record_items(records.drop_last()) + enc_record(records.last())
    }
}

/// A list of records: its length in compact form, then the records.
pub open spec fn enc_records(records: Seq<RecordModel>) -> Seq<u8> {
    compact_size(records.len()) + enc_record_items(records)
}

/// The records can be written: not too many, each identifier of 32 bytes,
/// and the notes of each can be written.
pub open spec fn records_encodable(records: Seq<RecordModel>) -> bool {
    &&& records.len() <= MAX_COMPACT_SIZE
    &&& forall|i: int|
        0 <= i < records.len() ==> (#[trigger] records[i]).txid.len() == 32 && notes_encodable(
            records[i].notes,
        )
}

/// One record read at `p`.
pub open spec fn dec_record(b: Seq<u8>, p: int) -> Option<(RecordModel, int)> {
    match dec_bytes(b, p, 32) {
        None => None,
        Some((txid, q)) => match dec_u32(b, q) {
            None => None,
            Some((tx_height, r)) => match dec_notes(b, r) {
                None => None,
                Some((notes, s)) => Some((RecordModel { txid, tx_height, notes }, s)),
            },
        },
    }
}

/// `n` records read from `p` on.
pub open spec fn dec_record_items(b: Seq<u8>, p: int, n: nat) -> Option<(Seq<RecordModel>, int)>
    decreases n,
{
    if n == 0 {
        Some((Seq::empty(), p))
    } else {
        match dec_record_items(b, p, (n - 1) as nat) {
            None => None,
            Some((records, q)) => match dec_record(b, q) {
                None => None,
                Some((record, r)) => Some((records.push(record), r)),
            },
        }
    }
}

/// A list of records read at `p`.
pub open spec fn dec_records(b: Seq<u8>, p: int) -> Option<(Seq<RecordModel>, int)> {
    match dec_compact(b, p) {
        None => None,
        Some((n, q)) => dec_record_items(b, q, n),
    }
}

/// Once the reading of records has failed, it fails for every longer list.
pub proof fn lemma_dec_record_items_fails(b: Seq<u8>, p: int, i: nat, n: nat)
    requires
        i <= n,
        dec_record_items(b, p, i).is_none(),
    ensures
        dec_record_items(b, p, n).is_none(),
    decreases n,
{
    if i < n {
        lemma_dec_record_items_fails(b, p, i, (n - 1) as nat);
    }
}

/// Reading a record where it was written gives it back.
pub proof fn lemma_dec_record(b: Seq<u8>, p: int, record: RecordModel)
    requires
        holds_at(b, p, enc_record(record)),
        record.txid.len() == 32,
        notes_encodable(record.notes),
    ensures
        dec_record(b, p) == Some((record, p + enc_record(record).len())),
{
    let height = spec_u32_to_le_bytes(record.tx_height);
    lemma_holds_split(b, p, record.txid + height, enc_notes(record.notes));
    lemma_holds_split(b, p, record.txid, height);
    lemma_dec_u32(b, p + 32, record.tx_height);
    lemma_dec_notes(b, p + 36, record.notes);
}

/// Reading records where they were written gives them back.
pub proof fn lemma_dec_record_items(b: Seq<u8>, p: int, records: Seq<RecordModel>)
    requires
        holds_at(b, p, enc_record_items(records)),
        forall|i: int|
            0 <= i < records.len() ==> (#[trigger] records[i]).txid.len() == 32 && notes_encodable(
                records[i].notes,
            ),
    ensures
        dec_record_items(b, p, records.len()) == Some(
            (records, p + enc_record_items(records).len()),
        ),
    decreases records.len(),
{
    if records.len() > 0 {
        let front = records.drop_last();
        let last = records.last();
        lemma_holds_split(b, p, enc_record_items(front), enc_record(last));
        assert forall|i: int| 0 <= i < front.len() implies (#[trigger] front[i]).txid.len() == 32
            && notes_encodable(front[i].notes) by {
            assert(front[i] == records[i]);
        }
        lemma_dec_record_items(b, p, front);
        lemma_dec_record(b, p + enc_record_items(front).len(), last);
        assert(front.push(last) =~= records);
    }
}

/// Reading a list of records where it was written gives it back.
pub proof fn lemma_dec_records(b: Seq<u8>, p: int, records: Seq<RecordModel>)
    requires
        holds_at(b, p, enc_records(records)),
        records_encodable(records),
    ensures
        dec_records(b, p) == Some((records, p + enc_records(records).len())),
{
    lemma_holds_split(b, p, compact_size(records.len()), enc_record_items(records));
    lemma_dec_compact(b, p, records.len());
    lemma_dec_record_items(b, p + compact_size(records.len()).len(), records);
}

/// Whether the records can be written.
pub fn records_fit(records: &Vec<TxRecord>) -> (b: bool)
    ensures
        b == records_encodable(record_models(records@)),
{
    if records.len() > MAX_COMPACT_SIZE {
        return false;
    }
    let mut i: usize = 0;
    while i < records.len()
        invariant
            i <= records@.len(),
            forall|k: int|
                0 <= k < i ==> notes_encodable((#[trigger] record_models(records@)[k]).notes),
        decreases records@.len() - i,
    {
        if !notes_fit(&records[i].notes.note_positions) {
            assert(!notes_encodable(record_models(records@)[i as int].notes));
            return false;
        }
        i += 1;
    }
    true
}

/// Appends a list of records.
pub fn write_records(out: &mut Vec<u8>, records: &Vec<TxRecord>)
    requires
        records_encodable(record_models(records@)),
    ensures
        final(out)@ == old(out)@ + enc_records(record_models(records@)),
{
    let ghost models = record_models(records@);
    write_compact(out, records.len());
    let ghost head = out@;
    let mut i: usize = 0;
    proof {
        assert(models.take(0) =~= Seq::empty());
        assert(out@ =~= head + enc_record_items(models.take(0)));
    }
    while i < records.len()
        invariant
            i <= records@.len(),
            models == record_models(records@),
            records_encodable(models),
            out@ == head + enc_record_items(models.take(i as int)),
        decreases records@.len() - i,
    {
        let ghost before = out@;
        let record = &records[i];
        write_bytes(out, &record.txid);
        write_u32(out, record.notes.tx_height);
        proof {
            assert(notes_encodable(models[i as int].notes));
        }
        write_notes(out, &record.notes.note_positions);
        proof {
            assert(models.take(i + 1).drop_last() =~= models.take(i as int));
            assert(models.take(i + 1).last() == models[i as int]);
            assert(out@ =~= before + enc_record(models[i as int]));
            assert(out@ =~= head + enc_record_items(models.take(i + 1)));
        }
        i += 1;
    }
    proof {
        assert(models.take(models.len() as int) =~= models);
        assert(out@ =~= old(out)@ + enc_records(models));
    }
}

/// Reads a list of records at `p`.
pub fn read_records(b: &[u8], p: usize) -> (r: Option<(Vec<TxRecord>, usize)>)
    ensures
        match r {
            Some((records, q)) => dec_records(b@, p as int) == Some(
                (record_models(records@), q as int),
            ),
            None => dec_records(b@, p as int).is_none(),
        },
{
    let (count, start) = match read_compact(b, p) {
        Some(v) => v,
        None => {
            return None;
        },
    };
    let mut records: Vec<TxRecord> = Vec::new();
    let mut q: usize = start;
    let mut i: usize = 0;
    proof {
        assert(record_models(records@) =~= Seq::empty());
    }
    while i < count
        invariant
            i <= count,
            dec_compact(b@, p as int) == Some((count as nat, start as int)),
            dec_record_items(b@, start as int, i as nat) == Some(
                (record_models(records@), q as int),
            ),
        decreases count - i,
    {
        let ghost held = record_models(records@);
        let parts = match read_bytes32(b, q) {
            None => None,
            Some((txid, after_txid)) => match read_u32(b, after_txid) {
                None => None,
                Some((tx_height, after_height)) => match read_notes(b, after_height) {
                    None => None,
                    Some((note_positions, after)) => Some(
                        (TxRecord { txid, notes: NotePositions { tx_height, note_positions } }, after),
                    ),
                },
            },
        };
        match parts {
            None => {
                proof {
                    assert(dec_record(b@, q as int).is_none());
                    assert(dec_record_items(b@, start as int, (i + 1) as nat).is_none());
                    lemma_dec_record_items_fails(b@, start as int, (i + 1) as nat, count as nat);
                }
                return None;
            },
            Some((record, after)) => {
                proof {
                    assert(dec_record(b@, q as int) == Some((record_model(record), after as int)));
                }
                records.push(record);
                proof {
                    assert(record_models(records@) =~= held.push(record_model(record)));
                }
                q = after;
                i += 1;
            },
        }
    }
    Some((records, q))
}

} // verus!

//! A model of the durable store's crash-atomic save protocol.
//!
//! A save writes the whole serialized record to a temporary location beside
//! the target and then renames it over the target in one step. The model
//! holds the contents of the two locations as plain values; the driver
//! mirrors each method with one file-system operation. A crash between the
//! two steps is a run that performed `write_temp` and never reached
//! `commit`: the contracts show the target untouched then, and the law at
//! the end shows it still parseable.

use vstd::prelude::*;
use crate::bytes::clone_bytes;
use crate::codec::decode_spec;
use crate::codec::decode_state;
use crate::codec::LoadError;
use crate::codec::encode_entries;
use crate::codec::encode_state;
use crate::codec::lemma_decode_encode;
use crate::state::StateRecord;
use crate::state::unique_keys;

verus! {

/// The contents of the target path and of the temporary path beside it;
/// `None` means the path holds no file.
pub struct StoredFiles {
    pub target: Option<Vec<u8>>,
    pub temp: Option<Vec<u8>>,
}

/// What a location holds, as a mathematical value.
pub open spec fn contents(o: Option<Vec<u8>>) -> Option<Seq<u8>> {
    match o {
        Some(v) => Some(v@),
        None => None,
    }
}

impl StoredFiles {
    /// Both paths empty: no state has ever been persisted.
    pub fn new() -> (r: StoredFiles)
        ensures
            contents(r.target) is None,
            contents(r.temp) is None,
    {
        StoredFiles { target: None, temp: None }
    }

    /// First step of a save: the whole serialization goes to the temporary
    /// path. The target is not touched — this is the crash-atomicity
    /// guarantee of the protocol.
    pub fn write_temp(&mut self, bytes: &Vec<u8>)
        ensures
            contents(final(self).temp) == Some(bytes@),
            contents(final(self).target) == contents(old(self).target),
    {
        self.temp = Some(clone_bytes(bytes));
    }

    /// Second step: the temporary file replaces the target in one rename.
    pub fn commit(&mut self)
        requires
            old(self).temp is Some,
        ensures
            contents(final(self).target) == contents(old(self).temp),
            contents(final(self).temp) is None,
    {
        let mut t: Option<Vec<u8>> = None;
        core::mem::swap(&mut t, &mut self.temp);
        self.target = t;
    }

    /// A whole save: after both steps the target holds exactly the
    /// record's encoding, which decodes back to the record.
    pub fn save(&mut self, record: &StateRecord)
        requires
            record.wf(),
        ensures
            contents(final(self).target) == Some(encode_entries(record.kv())),
            decode_spec(encode_entries(record.kv())) == Some(record.kv()),
    {
        let bytes = encode_state(record);
        self.write_temp(&bytes);
        self.commit();
    }
}

/// The load half of the store's contract, over what the state path held: no
/// file yields the empty record, not an error; bytes that are no encoding of
/// a well-formed record are corrupt; anything else is the record it encodes.
pub fn load_state(found: &Option<Vec<u8>>) -> (r: Result<StateRecord, LoadError>)
    ensures
        match r {
            Ok(st) => st.wf() && (match found {
                Some(bytes) => decode_spec(bytes@) == Some(st.kv()),
                None => st@ == Map::<Seq<u8>, Seq<u8>>::empty(),
            }),
            Err(e) => e == LoadError::CorruptState && (found matches Some(bytes)
                && decode_spec(bytes@) is None),
        },
{
    match found {
        Some(bytes) => decode_state(bytes),
        None => Ok(StateRecord::new()),
    }
}

/// Crash atomicity: when the target held the encoding of a record and a
/// failure strikes after the temporary write but before the rename, the
/// target still holds that encoding, and it still decodes to the very same
/// record.
pub proof fn lemma_crash_atomicity(
    before: StoredFiles,
    after: StoredFiles,
    kv: Seq<(Seq<u8>, Seq<u8>)>,
)
    requires
        unique_keys(kv),
        contents(before.target) == Some(encode_entries(kv)),
        contents(after.target) == contents(before.target),
    ensures
        contents(after.target) == Some(encode_entries(kv)),
        decode_spec(encode_entries(kv)) == Some(kv),
{
    lemma_decode_encode(kv);
}

} // verus!

//! One log record, and its binary encoding.

use crate::bytes::{bytes_to_string, u64_from_le_bytes, u64_to_le_bytes};
use crate::error::TsaError;
use crate::log::{can_parse_at, rec_at, rec_encoding, rec_vlen, RecG};
use vstd::prelude::*;
use vstd::slice::{slice_subrange, slice_to_vec};
use vstd::string::StrSliceExecFns;

verus! {

/// One log record: either a key set to a value, or a key removed.
#[derive(Debug)]
pub enum Entry {
    /// A key set to a (non-empty) value.
    Put { key: String, value: String },
    /// A key removed; encoded as a record with a zero-length value.
    Remove { key: String },
}

impl View for Entry {
    type V = RecG;

    open spec fn view(&self) -> RecG {
        match self {
            Entry::Put { key, value } => RecG { key: key@, value: value@ },
            Entry::Remove { key } => RecG { key: key@, value: Seq::empty() },
        }
    }
}

impl Entry {
    /// Encodes the record as
    /// `key_len (u64 LE) | value_len (u64 LE) | key bytes | value bytes`.
    pub fn serialize(&self) -> (r: Vec<u8>)
        ensures
            r@ == rec_encoding(self@),
            r@.len() >= 16,
    {
        let (key_bytes, value_bytes): (Vec<u8>, Vec<u8>) = match self {
            Entry::Put { key, value } => (key.as_str().as_bytes_vec(), value.as_str().as_bytes_vec()),
            Entry::Remove { key } => (key.as_str().as_bytes_vec(), Vec::new()),
        };
        proof {
            assert(vstd::utf8::encode_utf8(Seq::<char>::empty()) =~= Seq::<u8>::empty());
        }
        let mut buffer = u64_to_le_bytes(key_bytes.len() as u64);
        let mut vsz = u64_to_le_bytes(value_bytes.len() as u64);
        buffer.append(&mut vsz);
        let mut kb = key_bytes;
        buffer.append(&mut kb);
        let mut vb = value_bytes;
        buffer.append(&mut vb);
        proof {
            assert(buffer@ =~= rec_encoding(self@));
        }
        buffer
    }

    /// Decodes one record from the start of `data`; bytes past the record
    /// are ignored.  Fails with `CorruptedLog` exactly when no whole,
    /// well-formed record lies at the start: the input is shorter than the
    /// claimed lengths, or a field is not valid UTF-8.
    pub fn deserialize(data: &[u8]) -> (r: Result<Entry, TsaError>)
        ensures
            match r {
                Ok(e) => can_parse_at(data@, 0) && e@ == rec_at(data@, 0) && (e is Remove <==> rec_vlen(
                    data@,
                    0,
                ) == 0),
                Err(err) => !can_parse_at(data@, 0) && err is CorruptedLog,
            },
    {
        match parse_record(data, 0) {
            Some((e, _)) => Ok(e),
            None => Err(TsaError::CorruptedLog),
        }
    }
}

/// Decodes the record at offset `off` of `data`, together with its total
/// byte length; `None` exactly when no whole, well-formed record lies there.
pub fn parse_record(data: &[u8], off: usize) -> (r: Option<(Entry, usize)>)
    requires
        off <= data@.len(),
    ensures
        match r {
            Option::Some((e, sz)) => {
                &&& can_parse_at(data@, off as int)
                &&& e@ == rec_at(data@, off as int)
                &&& sz == crate::log::rec_size(data@, off as int)
                &&& sz >= 16
                &&& (e is Remove <==> rec_vlen(data@, off as int) == 0)
            },
            Option::None => !can_parse_at(data@, off as int),
        },
{
    let n = data.len();
    if n - off < 16 {
        return None;
    }
    let klen = u64_from_le_bytes(slice_subrange(data, off, off + 8));
    let vlen = u64_from_le_bytes(slice_subrange(data, off + 8, off + 16));
    if klen > (n - off - 16) as u64 {
        return None;
    }
    if vlen > (n - off - 16) as u64 - klen {
        return None;
    }
    let kend: usize = off + 16 + (klen as usize);
    let vend: usize = kend + (vlen as usize);
    let kb = slice_to_vec(slice_subrange(data, off + 16, kend));
    let vb = slice_to_vec(slice_subrange(data, kend, vend));
    let key = match bytes_to_string(kb) {
        Some(s) => s,
        None => {
            return None;
        },
    };
    let value = match bytes_to_string(vb) {
        Some(s) => s,
        None => {
            return None;
        },
    };
    proof {
        crate::log::lemma_decode_utf8_len_zero(data@.subrange(kend as int, vend as int));
    }
    let sz: usize = 16 + (klen as usize) + (vlen as usize);
    if value.as_str().is_empty() {
        Some((Entry::Remove { key }, sz))
    } else {
        Some((Entry::Put { key, value }, sz))
    }
}

} // verus!

use vstd::prelude::*;
use vstd::slice::slice_subrange;
use crate::varint::{self, decode_spec};

verus! {

/// An encoded feature record: a geometry type byte, the feature type as a
/// varint, the external id as a varint, then the geometry.
#[derive(Debug, Clone, Hash)]
pub struct V {
    pub data: Vec<u8>,
}

/// The external id held in the prefix of an encoded record, if it can be read.
pub open spec fn record_id(d: Seq<u8>) -> Option<nat> {
    if d.len() < 1 {
        None
    } else {
        match decode_spec(d.drop_first()) {
            Err(_) => None,
            Ok((k, _)) => match decode_spec(d.skip(1 + k as int)) {
                Err(_) => None,
                Ok((_, id)) => Some(id),
            },
        }
    }
}

impl V {
    /// Wraps encoded bytes.
    pub fn new(data: Vec<u8>) -> (r: V)
        ensures
            r.data@ == data@,
    {
        V { data }
    }

    pub fn is_empty(&self) -> (r: bool)
        ensures
            r == (self.data@.len() == 0),
    {
        self.len() == 0
    }

    pub fn len(&self) -> (r: usize)
        ensures
            r == self.data@.len(),
    {
        self.data.len()
    }

    /// The external id in the record's prefix, or `None` when the prefix
    /// cannot be read. Reads only the prefix.
    pub fn get_id(&self) -> (r: Option<u64>)
        ensures
            match record_id(self.data@) {
                Some(id) => r == Some(id as u64),
                None => r is None,
            },
    {
        if self.data.len() < 1 {
            return None;
        }
        let d = self.data.as_slice();
        let rest = slice_subrange(d, 1, d.len());
        assert(rest@ =~= self.data@.drop_first());
        match varint::decode(rest) {
            Err(_) => None,
            Ok((k, _)) => {
                let tail = slice_subrange(d, 1 + k, d.len());
                assert(tail@ =~= self.data@.skip(1 + k));
                match varint::decode(tail) {
                    Err(_) => None,
                    Ok((_, id)) => Some(id),
                }
            },
        }
    }
}

} // verus!

use vstd::prelude::*;
use vstd::slice::{slice_subrange, slice_to_vec};
use crate::varint::{self, decode_spec, varint_bytes, VarintError};
use crate::error::{IngestError, IngestErrorKind, varint_kind};

verus! {

/// First byte of every record key.
pub const ID_PREFIX: u8 = 0;

/// A node as stored: longitude and latitude are the bits of IEEE-754 single
/// precision numbers.
#[derive(Debug, Clone, PartialEq)]
pub struct DecodedNode {
    pub id: u64,
    pub lon_bits: u32,
    pub lat_bits: u32,
    pub feature_type: u64,
    pub labels: Vec<u8>,
}

/// A way as stored.
#[derive(Debug, Clone, PartialEq)]
pub struct DecodedWay {
    pub id: u64,
    pub feature_type: u64,
    pub is_area: bool,
    pub refs: Vec<u64>,
    pub labels: Vec<u8>,
}

/// A relation as stored; each member is `way_id * 2 + role`, role 1 for inner
/// and 0 for outer.
#[derive(Debug, Clone, PartialEq)]
pub struct DecodedRelation {
    pub id: u64,
    pub feature_type: u64,
    pub is_area: bool,
    pub members: Vec<u64>,
    pub labels: Vec<u8>,
}

/// A stored record of any kind.
#[derive(Debug, Clone, PartialEq)]
pub enum Decoded {
    Node(DecodedNode),
    Way(DecodedWay),
    Relation(DecodedRelation),
}

/// The big-endian 32-bit number in the first four bytes of `s`.
pub open spec fn be32(s: Seq<u8>) -> nat {
    s[0] as nat * 0x100_0000 + s[1] as nat * 0x1_0000 + s[2] as nat * 0x100 + s[3] as nat
}

/// The external id that a record key names.
pub open spec fn key_spec(key: Seq<u8>) -> Result<nat, IngestErrorKind> {
    if key.len() == 0 {
        Err(IngestErrorKind::TruncatedInput)
    } else if key[0] != ID_PREFIX {
        Err(IngestErrorKind::NonIdKey { prefix: key[0] })
    } else {
        match decode_spec(key.drop_first()) {
            Err(e) => Err(varint_kind(e)),
            Ok((_, x)) => Ok(x),
        }
    }
}

/// `n` varints read one after another from the start of `s`: their values and
/// the bytes they take.
pub open spec fn varints_spec(s: Seq<u8>, n: nat) -> Result<(Seq<u64>, nat), VarintError>
    decreases n,
{
    if n == 0 {
        Ok((Seq::empty(), 0))
    } else {
        match decode_spec(s) {
            Err(e) => Err(e),
            Ok((k, v)) => match varints_spec(s.skip(k as int), (n - 1) as nat) {
                Err(e) => Err(e),
                Ok((vs, m)) => Ok((seq![v as u64] + vs, k + m)),
            },
        }
    }
}

/// Puts values already read in front of the result of reading the rest.
pub open spec fn chain(
    vs: Seq<u64>,
    off: nat,
    r: Result<(Seq<u64>, nat), VarintError>,
) -> Result<(Seq<u64>, nat), VarintError> {
    match r {
        Err(e) => Err(e),
        Ok((ws, m)) => Ok((vs + ws, off + m)),
    }
}

/// The value of a way or relation record: the feature type and area flag as
/// one varint, a count, that many varints, then the labels. Gives the first
/// varint, the list, and where the labels start.
pub open spec fn list_spec(v: Seq<u8>) -> Result<(nat, Seq<u64>, nat), VarintError> {
    match decode_spec(v) {
        Err(e) => Err(e),
        Ok((k1, fta)) => match decode_spec(v.skip(k1 as int)) {
            Err(e) => Err(e),
            Ok((k2, len)) => match varints_spec(v.skip((k1 + k2) as int), len) {
                Err(e) => Err(e),
                Ok((vals, k3)) => Ok((fta, vals, k1 + k2 + k3)),
            },
        },
    }
}

/// The value of a node record: longitude and latitude bits, big-endian, then
/// the feature type as a varint, then the labels. Gives the two numbers, the
/// feature type and where the labels start.
pub open spec fn node_spec(v: Seq<u8>) -> Result<(nat, nat, nat, nat), VarintError> {
    if v.len() < 8 {
        Err(VarintError::TruncatedInput)
    } else {
        match decode_spec(v.skip(8)) {
            Err(e) => Err(e),
            Ok((k, ft)) => Ok((be32(v), be32(v.skip(4)), ft, 8 + k)),
        }
    }
}

/// What reading the record (`key`, `value`) gives: the error kind, or that
/// `r` holds the record.
pub open spec fn decoded_spec(key: Seq<u8>, value: Seq<u8>, r: Result<Decoded, IngestError>) -> bool {
    match key_spec(key) {
        Err(kind) => r == Err::<Decoded, IngestError>(IngestError { kind }),
        Ok(x) => if x % 3 == 0 {
            match node_spec(value) {
                Err(e) => r == Err::<Decoded, IngestError>(IngestError { kind: varint_kind(e) }),
                Ok((lon, lat, ft, off)) => match r {
                    Ok(Decoded::Node(n)) => n.id == x / 3 && n.lon_bits == lon && n.lat_bits == lat
                        && n.feature_type == ft && n.labels@ == value.skip(off as int),
                    _ => false,
                },
            }
        } else {
            match list_spec(value) {
                Err(e) => r == Err::<Decoded, IngestError>(IngestError { kind: varint_kind(e) }),
                Ok((fta, vals, off)) => if x % 3 == 1 {
                    match r {
                        Ok(Decoded::Way(w)) => w.id == x / 3 && w.feature_type == fta / 2
                            && w.is_area == (fta % 2 == 1) && w.refs@ == vals
                            && w.labels@ == value.skip(off as int),
                        _ => false,
                    }
                } else {
                    match r {
                        Ok(Decoded::Relation(m)) => m.id == x / 3 && m.feature_type == fta / 2
                            && m.is_area == (fta % 2 == 1) && m.members@ == vals
                            && m.labels@ == value.skip(off as int),
                        _ => false,
                    }
                }
            }
        },
    }
}

/// The key under which the record with external id `ex_id` is stored.
pub fn id_key(ex_id: u64) -> (r: Result<Vec<u8>, IngestError>)
    ensures
        match r {
            Ok(k) => k@ == seq![ID_PREFIX] + varint_bytes(ex_id as nat),
            Err(_) => false,
        },
{
    let mut key: Vec<u8> = Vec::new();
    key.push(ID_PREFIX);
    let mut enc = varint::encode(ex_id);
    key.append(&mut enc);
    Ok(key)
}

/// A record key read back gives the external id that it was made from.
pub proof fn lemma_id_key_round_trip(ex_id: u64)
    ensures
        key_spec(seq![ID_PREFIX] + varint_bytes(ex_id as nat)) == Ok::<nat, IngestErrorKind>(
            ex_id as nat,
        ),
{
    let k = seq![ID_PREFIX] + varint_bytes(ex_id as nat);
    assert(k.drop_first() =~= varint_bytes(ex_id as nat) + Seq::<u8>::empty());
    varint::lemma_decode_encode(ex_id, Seq::empty());
}

fn read_be32(v: &[u8], off: usize) -> (r: u32)
    requires
        off + 4 <= v@.len(),
    ensures
        r as nat == be32(v@.skip(off as int)),
{
    (v[off] as u32) * 0x100_0000 + (v[off + 1] as u32) * 0x1_0000 + (v[off + 2] as u32) * 0x100
        + (v[off + 3] as u32)
}

/// Reads `n` varints starting at `off`.
pub(crate) fn read_varints(v: &[u8], off: usize, n: u64) -> (r: Result<(Vec<u64>, usize), VarintError>)
    requires
        off <= v@.len(),
    ensures
        match varints_spec(v@.skip(off as int), n as nat) {
            Err(e) => r == Err::<(Vec<u64>, usize), VarintError>(e),
            Ok((vals, m)) => match r {
                Ok((out, end)) => out@ == vals && end == off + m,
                Err(_) => false,
            },
        },
        match r {
            Ok((_, end)) => off <= end <= v@.len(),
            Err(_) => true,
        },
{
    let mut out: Vec<u64> = Vec::new();
    let mut pos: usize = off;
    let mut i: u64 = 0;
    assert(out@ + Seq::<u64>::empty() =~= out@);
    while i < n
        invariant
            off <= pos <= v@.len(),
            i <= n,
            varints_spec(v@.skip(off as int), n as nat) == chain(
                out@,
                (pos - off) as nat,
                varints_spec(v@.skip(pos as int), (n - i) as nat),
            ),
        decreases n - i,
    {
        let rest = slice_subrange(v, pos, v.len());
        assert(rest@ =~= v@.skip(pos as int));
        match varint::decode(rest) {
            Err(e) => {
                return Err(e);
            },
            Ok((k, x)) => {
                proof {
                    let s = v@.skip(pos as int);
                    assert(s.skip(k as int) =~= v@.skip(pos + k));
                    let tail = varints_spec(v@.skip(pos + k), (n - i - 1) as nat);
                    match tail {
                        Ok((ws, m)) => {
                            assert(out@ + (seq![x] + ws) =~= out@.push(x) + ws);
                        },
                        Err(_) => {},
                    }
                }
                out.push(x);
                pos = pos + k;
                i = i + 1;
            },
        }
    }
    assert(out@ + Seq::<u64>::empty() =~= out@);
    Ok((out, pos))
}

/// Reads the stored record under `key` with value `value`.
pub fn decode(key: &[u8], value: &[u8]) -> (r: Result<Decoded, IngestError>)
    ensures
        decoded_spec(key@, value@, r),
{
    if key.len() == 0 {
        return IngestErrorKind::TruncatedInput.raise();
    }
    if key[0] != ID_PREFIX {
        return IngestErrorKind::NonIdKey { prefix: key[0] }.raise();
    }
    let key_rest = slice_subrange(key, 1, key.len());
    assert(key_rest@ =~= key@.drop_first());
    let ex_id = match varint::decode(key_rest) {
        Err(e) => {
            return Err(IngestError::from_varint(e));
        },
        Ok((_, x)) => x,
    };
    let id = ex_id / 3;
    if ex_id % 3 == 0 {
        if value.len() < 8 {
            return Err(IngestError::from_varint(VarintError::TruncatedInput));
        }
        let lon_bits = read_be32(value, 0);
        let lat_bits = read_be32(value, 4);
        let rest = slice_subrange(value, 8, value.len());
        assert(rest@ =~= value@.skip(8));
        assert(value@.skip(0) =~= value@);
        let (k, feature_type) = match varint::decode(rest) {
            Err(e) => {
                return Err(IngestError::from_varint(e));
            },
            Ok(p) => p,
        };
        let labels = slice_to_vec(slice_subrange(value, 8 + k, value.len()));
        assert(labels@ =~= value@.skip(8 + k));
        Ok(Decoded::Node(DecodedNode { id, lon_bits, lat_bits, feature_type, labels }))
    } else {
        let (k1, fta) = match varint::decode(value) {
            Err(e) => {
                return Err(IngestError::from_varint(e));
            },
            Ok(p) => p,
        };
        let rest = slice_subrange(value, k1, value.len());
        assert(rest@ =~= value@.skip(k1 as int));
        let (k2, len) = match varint::decode(rest) {
            Err(e) => {
                return Err(IngestError::from_varint(e));
            },
            Ok(p) => p,
        };
        assert(value@.skip(k1 as int).len() == value@.len() - k1);
        let (vals, end) = match read_varints(value, k1 + k2, len) {
            Err(e) => {
                return Err(IngestError::from_varint(e));
            },
            Ok(p) => p,
        };
        let labels = slice_to_vec(slice_subrange(value, end, value.len()));
        assert(labels@ =~= value@.skip(end as int));
        let feature_type = fta / 2;
        let is_area = fta % 2 == 1;
        if ex_id % 3 == 1 {
            Ok(Decoded::Way(DecodedWay { id, feature_type, is_area, refs: vals, labels }))
        } else {
            Ok(Decoded::Relation(DecodedRelation { id, feature_type, is_area, members: vals, labels }))
        }
    }
}

/// The four big-endian bytes of `x`.
pub open spec fn be32_bytes(x: u32) -> Seq<u8> {
    seq![(x / 0x100_0000) as u8, ((x / 0x1_0000) % 0x100) as u8, ((x / 0x100) % 0x100) as u8, (x % 0x100) as u8]
}

/// The encodings of `vals`, one after the other.
pub open spec fn varints_bytes(vals: Seq<u64>) -> Seq<u8>
    decreases vals.len(),
{
    if vals.len() == 0 {
        Seq::empty()
    } else {
        varint_bytes(vals[0] as nat) + varints_bytes(vals.drop_first())
    }
}

/// The stored value of a node.
pub open spec fn node_bytes(lon_bits: u32, lat_bits: u32, feature_type: u64, labels: Seq<u8>) -> Seq<u8> {
    be32_bytes(lon_bits) + be32_bytes(lat_bits) + varint_bytes(feature_type as nat) + labels
}

/// The stored value of a way or relation: `fta` is the feature type times two
/// plus one for an area.
pub open spec fn list_bytes(fta: u64, vals: Seq<u64>, labels: Seq<u8>) -> Seq<u8> {
    varint_bytes(fta as nat) + varint_bytes(vals.len()) + varints_bytes(vals) + labels
}

proof fn lemma_varints_bytes_push(vals: Seq<u64>, v: u64)
    ensures
        varints_bytes(vals.push(v)) == varints_bytes(vals) + varint_bytes(v as nat),
    decreases vals.len(),
{
    if vals.len() == 0 {
        let w = vals.push(v);
        assert(w[0] == v);
        assert(w.drop_first() =~= Seq::<u64>::empty());
        assert(varints_bytes(w.drop_first()) == Seq::<u8>::empty());
        assert(varints_bytes(w) == varint_bytes(v as nat) + Seq::<u8>::empty());
        assert(varints_bytes(vals) == Seq::<u8>::empty());
        assert(varint_bytes(v as nat) + Seq::<u8>::empty() =~= Seq::<u8>::empty() + varint_bytes(v as nat));
    } else {
        assert(vals.push(v).drop_first() =~= vals.drop_first().push(v));
        lemma_varints_bytes_push(vals.drop_first(), v);
        assert(varints_bytes(vals.push(v)) =~= varints_bytes(vals) + varint_bytes(v as nat));
    }
}

pub(crate) proof fn lemma_varints_round_trip(vals: Seq<u64>, rest: Seq<u8>)
    ensures
        varints_spec(varints_bytes(vals) + rest, vals.len()) == Ok::<(Seq<u64>, nat), VarintError>(
            (vals, varints_bytes(vals).len()),
        ),
    decreases vals.len(),
{
    if vals.len() > 0 {
        let v = vals[0];
        let t = vals.drop_first();
        let e = varint_bytes(v as nat);
        let all = varints_bytes(vals) + rest;
        assert(all =~= e + (varints_bytes(t) + rest));
        varint::lemma_decode_encode(v, varints_bytes(t) + rest);
        assert(all.skip(e.len() as int) =~= varints_bytes(t) + rest);
        lemma_varints_round_trip(t, rest);
        assert(seq![v] + t =~= vals);
    } else {
        assert(varints_bytes(vals) + rest =~= rest);
        assert(vals =~= Seq::<u64>::empty());
    }
}

fn push_be32(out: &mut Vec<u8>, x: u32)
    ensures
        final(out)@ == old(out)@ + be32_bytes(x),
{
    out.push((x / 0x100_0000) as u8);
    out.push(((x / 0x1_0000) % 0x100) as u8);
    out.push(((x / 0x100) % 0x100) as u8);
    out.push((x % 0x100) as u8);
    assert(final(out)@ =~= old(out)@ + be32_bytes(x)) by {
        assert(out@ =~= old(out)@ + be32_bytes(x));
    }
}

pub(crate) fn push_varint(out: &mut Vec<u8>, x: u64)
    ensures
        final(out)@ == old(out)@ + varint_bytes(x as nat),
{
    let mut e = varint::encode(x);
    out.append(&mut e);
}

fn push_bytes(out: &mut Vec<u8>, b: &[u8])
    ensures
        final(out)@ == old(out)@ + b@,
{
    let mut i: usize = 0;
    let ghost o0 = out@;
    while i < b.len()
        invariant
            i <= b@.len(),
            out@ == o0 + b@.take(i as int),
        decreases b@.len() - i,
    {
        out.push(b[i]);
        assert(b@.take(i + 1) =~= b@.take(i as int).push(b@[i as int]));
        i = i + 1;
    }
    assert(b@.take(i as int) =~= b@);
}

/// Appends the encodings of `vals`, one after the other.
pub(crate) fn push_varints(out: &mut Vec<u8>, vals: &Vec<u64>)
    ensures
        final(out)@ == old(out)@ + varints_bytes(vals@),
{
    let ghost head = out@;
    let mut i: usize = 0;
    assert(vals@.take(0) =~= Seq::<u64>::empty());
    assert(head + varints_bytes(vals@.take(0)) =~= head);
    while i < vals.len()
        invariant
            i <= vals@.len(),
            out@ == head + varints_bytes(vals@.take(i as int)),
        decreases vals@.len() - i,
    {
        push_varint(out, vals[i]);
        proof {
            assert(vals@.take(i + 1) =~= vals@.take(i as int).push(vals@[i as int]));
            lemma_varints_bytes_push(vals@.take(i as int), vals@[i as int]);
            assert(out@ =~= head + varints_bytes(vals@.take(i + 1)));
        }
        i = i + 1;
    }
    assert(vals@.take(i as int) =~= vals@);
}

fn list_value(fta: u64, vals: &Vec<u64>, labels: &[u8]) -> (r: Vec<u8>)
    ensures
        r@ == list_bytes(fta, vals@, labels@),
{
    let mut out: Vec<u8> = Vec::new();
    push_varint(&mut out, fta);
    push_varint(&mut out, vals.len() as u64);
    push_varints(&mut out, vals);
    push_bytes(&mut out, labels);
    out
}

/// The key and value under which a node is stored.
pub fn encode_node(id: u64, lon_bits: u32, lat_bits: u32, feature_type: u64, labels: &[u8]) -> (r: (
    Vec<u8>,
    Vec<u8>,
))
    requires
        id * 3 <= u64::MAX,
    ensures
        r.0@ == seq![ID_PREFIX] + varint_bytes((id * 3) as nat),
        r.1@ == node_bytes(lon_bits, lat_bits, feature_type, labels@),
{
    let mut key: Vec<u8> = Vec::new();
    key.push(ID_PREFIX);
    push_varint(&mut key, id * 3);
    let mut value: Vec<u8> = Vec::new();
    push_be32(&mut value, lon_bits);
    push_be32(&mut value, lat_bits);
    push_varint(&mut value, feature_type);
    push_bytes(&mut value, labels);
    (key, value)
}

/// The key and value under which a way is stored; each ref is kept as the
/// 64-bit pattern of its id.
pub fn encode_way(id: u64, feature_type: u64, is_area: bool, refs: &Vec<i64>, labels: &[u8]) -> (r: (
    Vec<u8>,
    Vec<u8>,
))
    requires
        id * 3 + 1 <= u64::MAX,
        feature_type * 2 + 1 <= u64::MAX,
    ensures
        r.0@ == seq![ID_PREFIX] + varint_bytes((id * 3 + 1) as nat),
        r.1@ == list_bytes(
            (feature_type * 2 + if is_area { 1nat } else { 0nat }) as u64,
            refs@.map_values(|x: i64| x as u64),
            labels@,
        ),
{
    let mut key: Vec<u8> = Vec::new();
    key.push(ID_PREFIX);
    push_varint(&mut key, id * 3 + 1);
    let mut vals: Vec<u64> = Vec::new();
    let mut i: usize = 0;
    while i < refs.len()
        invariant
            i <= refs@.len(),
            vals@ == refs@.take(i as int).map_values(|x: i64| x as u64),
        decreases refs@.len() - i,
    {
        vals.push(refs[i] as u64);
        assert(refs@.take(i + 1).map_values(|x: i64| x as u64) =~= refs@.take(i as int).map_values(|x: i64| x as u64).push(refs@[i as int] as u64));
        i = i + 1;
    }
    assert(refs@.take(i as int) =~= refs@);
    let fta = if is_area { feature_type * 2 + 1 } else { feature_type * 2 };
    let value = list_value(fta, &vals, labels);
    (key, value)
}

/// The key and value under which a relation is stored; `members` holds the
/// member codes (`way_id * 2`, plus one for an inner ring).
pub fn encode_relation(id: u64, feature_type: u64, is_area: bool, members: &Vec<u64>, labels: &[u8]) -> (r: (
    Vec<u8>,
    Vec<u8>,
))
    requires
        id * 3 + 2 <= u64::MAX,
        feature_type * 2 + 1 <= u64::MAX,
    ensures
        r.0@ == seq![ID_PREFIX] + varint_bytes((id * 3 + 2) as nat),
        r.1@ == list_bytes((feature_type * 2 + if is_area { 1nat } else { 0nat }) as u64, members@, labels@),
{
    let mut key: Vec<u8> = Vec::new();
    key.push(ID_PREFIX);
    push_varint(&mut key, id * 3 + 2);
    let fta = if is_area { feature_type * 2 + 1 } else { feature_type * 2 };
    let value = list_value(fta, members, labels);
    (key, value)
}

proof fn lemma_be32_round_trip(x: u32, rest: Seq<u8>)
    ensures
        be32(be32_bytes(x) + rest) == x,
{
    let s = be32_bytes(x) + rest;
    assert(s[0] == (x / 0x100_0000) as u8);
    assert(s[1] == ((x / 0x1_0000) % 0x100) as u8);
    assert(s[2] == ((x / 0x100) % 0x100) as u8);
    assert(s[3] == (x % 0x100) as u8);
    assert(x == (x / 0x100_0000) * 0x100_0000 + ((x / 0x1_0000) % 0x100) * 0x1_0000 + ((x / 0x100) % 0x100)
        * 0x100 + x % 0x100) by (nonlinear_arith);
}

/// Whatever reading a stored node gives back is that node.
pub proof fn lemma_node_round_trip(
    id: u64,
    lon_bits: u32,
    lat_bits: u32,
    feature_type: u64,
    labels: Seq<u8>,
    r: Result<Decoded, IngestError>,
)
    requires
        id * 3 <= u64::MAX,
        decoded_spec(seq![ID_PREFIX] + varint_bytes((id * 3) as nat), node_bytes(lon_bits, lat_bits, feature_type, labels), r),
    ensures
        match r {
            Ok(Decoded::Node(n)) => n.id == id && n.lon_bits == lon_bits && n.lat_bits == lat_bits
                && n.feature_type == feature_type && n.labels@ == labels,
            _ => false,
        },
{
    let x = (id * 3) as u64;
    lemma_id_key_round_trip(x);
    let v = node_bytes(lon_bits, lat_bits, feature_type, labels);
    let e = varint_bytes(feature_type as nat);
    assert(v =~= be32_bytes(lon_bits) + (be32_bytes(lat_bits) + e + labels));
    lemma_be32_round_trip(lon_bits, be32_bytes(lat_bits) + e + labels);
    assert(v.skip(4) =~= be32_bytes(lat_bits) + (e + labels));
    lemma_be32_round_trip(lat_bits, e + labels);
    assert(v.skip(8) =~= e + labels);
    varint::lemma_decode_encode(feature_type, labels);
    assert(v.skip(8 + e.len() as int) =~= labels);
}

/// Whatever reading a stored way or relation gives back is that element.
pub proof fn lemma_list_round_trip(
    id: u64,
    kind: u64,
    fta: u64,
    vals: Seq<u64>,
    labels: Seq<u8>,
    r: Result<Decoded, IngestError>,
)
    requires
        kind == 1 || kind == 2,
        id * 3 + kind <= u64::MAX,
        vals.len() <= u64::MAX,
        decoded_spec(seq![ID_PREFIX] + varint_bytes((id * 3 + kind) as nat), list_bytes(fta, vals, labels), r),
    ensures
        kind == 1 ==> match r {
            Ok(Decoded::Way(w)) => w.id == id && w.feature_type == fta / 2 && w.is_area == (fta % 2 == 1)
                && w.refs@ == vals && w.labels@ == labels,
            _ => false,
        },
        kind == 2 ==> match r {
            Ok(Decoded::Relation(m)) => m.id == id && m.feature_type == fta / 2 && m.is_area == (fta % 2
                == 1) && m.members@ == vals && m.labels@ == labels,
            _ => false,
        },
{
    let x = (id * 3 + kind) as u64;
    lemma_id_key_round_trip(x);
    let v = list_bytes(fta, vals, labels);
    let e1 = varint_bytes(fta as nat);
    let e2 = varint_bytes(vals.len());
    let e3 = varints_bytes(vals);
    assert(v =~= e1 + (e2 + e3 + labels));
    varint::lemma_decode_encode(fta, e2 + e3 + labels);
    assert(v.skip(e1.len() as int) =~= e2 + (e3 + labels));
    varint::lemma_decode_encode(vals.len() as u64, e3 + labels);
    assert(v.skip((e1.len() + e2.len()) as int) =~= e3 + labels);
    lemma_varints_round_trip(vals, labels);
    assert(v.skip((e1.len() + e2.len() + e3.len()) as int) =~= labels);
    assert(x / 3 == id);
}

} // verus!

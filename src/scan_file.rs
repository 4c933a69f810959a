use vstd::prelude::*;
use vstd::slice::slice_subrange;
use crate::encoder::{self, varints_bytes, varints_spec};
use crate::scan::{BlobRef, Interval, ScanTable};
use crate::varint::{self, decode_spec, varint_bytes, VarintError};

verus! {

/// The five numbers that stand for an interval in a scan file.
pub open spec fn interval_words(iv: Interval) -> Seq<u64> {
    seq![iv.min_id as u64, iv.max_id as u64, iv.blob.offset, iv.blob.byte_len as u64, iv.blob.len as u64]
}

/// The numbers of all intervals of `s`, five each, in order.
pub open spec fn words_of(s: Seq<Interval>) -> Seq<u64>
    decreases s.len(),
{
    if s.len() == 0 {
        Seq::empty()
    } else {
        words_of(s.drop_last()) + interval_words(s.last())
    }
}

/// The intervals that groups of five numbers stand for.
pub open spec fn intervals_of(w: Seq<u64>) -> Seq<Interval> {
    Seq::new(
        w.len() / 5,
        |i: int|
            Interval {
                min_id: w[5 * i] as i64,
                max_id: w[5 * i + 1] as i64,
                blob: BlobRef { offset: w[5 * i + 2], byte_len: w[5 * i + 3] as usize, len: w[5 * i + 4] as usize },
            },
    )
}

/// The part of a scan file for one kind: the count of intervals, then five
/// varints per interval.
pub open spec fn kind_bytes(s: Seq<Interval>) -> Seq<u8> {
    varint_bytes(s.len()) + varints_bytes(words_of(s))
}

/// A scan file: nodes, then ways, then relations.
pub open spec fn table_bytes(t: ScanTable) -> Seq<u8> {
    kind_bytes(t.nodes@) + kind_bytes(t.ways@) + kind_bytes(t.relations@)
}

/// Reading the part of one kind at the start of `b`: its intervals and the
/// bytes it takes.
pub open spec fn kind_spec(b: Seq<u8>) -> Result<(Seq<Interval>, nat), VarintError> {
    match decode_spec(b) {
        Err(e) => Err(e),
        Ok((k, n)) => if n * 5 > u64::MAX {
            Err(VarintError::TruncatedInput)
        } else {
            match varints_spec(b.skip(k as int), n * 5) {
                Err(e) => Err(e),
                Ok((w, m)) => Ok((intervals_of(w), k + m)),
            }
        },
    }
}

/// Reading a scan file: the intervals of each kind.
pub open spec fn table_spec(b: Seq<u8>) -> Result<(Seq<Interval>, Seq<Interval>, Seq<Interval>), VarintError> {
    match kind_spec(b) {
        Err(e) => Err(e),
        Ok((a, k1)) => match kind_spec(b.skip(k1 as int)) {
            Err(e) => Err(e),
            Ok((w, k2)) => match kind_spec(b.skip((k1 + k2) as int)) {
                Err(e) => Err(e),
                Ok((r, _)) => Ok((a, w, r)),
            },
        },
    }
}

fn push_kind(out: &mut Vec<u8>, ivs: &Vec<Interval>)
    ensures
        final(out)@ == old(out)@ + kind_bytes(ivs@),
{
    let mut words: Vec<u64> = Vec::new();
    let mut i: usize = 0;
    while i < ivs.len()
        invariant
            i <= ivs@.len(),
            words@ == words_of(ivs@.take(i as int)),
        decreases ivs@.len() - i,
    {
        let iv = ivs[i];
        let ghost w0 = words@;
        words.push(iv.min_id as u64);
        words.push(iv.max_id as u64);
        words.push(iv.blob.offset);
        words.push(iv.blob.byte_len as u64);
        words.push(iv.blob.len as u64);
        proof {
            assert(ivs@.take(i + 1).drop_last() =~= ivs@.take(i as int));
            assert(words@ =~= w0 + interval_words(iv));
        }
        i = i + 1;
    }
    assert(ivs@.take(i as int) =~= ivs@);
    encoder::push_varint(out, ivs.len() as u64);
    encoder::push_varints(out, &words);
    assert(final(out)@ =~= old(out)@ + kind_bytes(ivs@));
}

/// The scan file of `table`.
pub fn encode_table(table: &ScanTable) -> (r: Vec<u8>)
    ensures
        r@ == table_bytes(*table),
{
    let mut out: Vec<u8> = Vec::new();
    push_kind(&mut out, &table.nodes);
    push_kind(&mut out, &table.ways);
    push_kind(&mut out, &table.relations);
    assert(out@ =~= table_bytes(*table));
    out
}

fn read_kind(b: &[u8], off: usize) -> (r: Result<(Vec<Interval>, usize), VarintError>)
    requires
        off <= b@.len(),
    ensures
        match kind_spec(b@.skip(off as int)) {
            Err(e) => r == Err::<(Vec<Interval>, usize), VarintError>(e),
            Ok((ivs, m)) => match r {
                Ok((v, end)) => v@ == ivs && end == off + m && end <= b@.len(),
                Err(_) => false,
            },
        },
{
    let rest = slice_subrange(b, off, b.len());
    assert(rest@ =~= b@.skip(off as int));
    let (k, n) = match varint::decode(rest) {
        Err(e) => {
            return Err(e);
        },
        Ok(p) => p,
    };
    if n > u64::MAX / 5 {
        return Err(VarintError::TruncatedInput);
    }
    assert(b@.skip(off as int).skip(k as int) =~= b@.skip(off + k));
    let (words, end) = match encoder::read_varints(b, off + k, n * 5) {
        Err(e) => {
            return Err(e);
        },
        Ok(p) => p,
    };
    let mut ivs: Vec<Interval> = Vec::new();
    let mut i: usize = 0;
    let count = words.len() / 5;
    while i < count
        invariant
            count == words@.len() / 5,
            i <= count,
            ivs@ == intervals_of(words@).take(i as int),
        decreases count - i,
    {
        let wl = words.len();
        assert(5 * i + 4 < wl) by (nonlinear_arith)
            requires
                i < count,
                count == wl / 5,
        ;
        let j: usize = 5 * i;
        let lo = words[j];
        let hi = words[j + 1];
        let bl = words[j + 3];
        let ln = words[j + 4];
        let iv = Interval {
            min_id: #[verifier::truncate] (lo as i64),
            max_id: #[verifier::truncate] (hi as i64),
            blob: BlobRef {
                offset: words[j + 2],
                byte_len: #[verifier::truncate] (bl as usize),
                len: #[verifier::truncate] (ln as usize),
            },
        };
        ivs.push(iv);
        assert(ivs@ =~= intervals_of(words@).take(i + 1));
        i = i + 1;
    }
    assert(ivs@ =~= intervals_of(words@));
    Ok((ivs, end))
}

/// Reads a scan file back into a table.
pub fn decode_table(b: &[u8]) -> (r: Result<ScanTable, VarintError>)
    ensures
        match table_spec(b@) {
            Err(e) => r == Err::<ScanTable, VarintError>(e),
            Ok((nodes, ways, relations)) => match r {
                Ok(t) => t.nodes@ == nodes && t.ways@ == ways && t.relations@ == relations,
                Err(_) => false,
            },
        },
{
    assert(b@.skip(0) =~= b@);
    let (nodes, k1) = match read_kind(b, 0) {
        Err(e) => {
            return Err(e);
        },
        Ok(p) => p,
    };
    let (ways, k2) = match read_kind(b, k1) {
        Err(e) => {
            return Err(e);
        },
        Ok(p) => p,
    };
    let (relations, _) = match read_kind(b, k2) {
        Err(e) => {
            return Err(e);
        },
        Ok(p) => p,
    };
    Ok(ScanTable { nodes, ways, relations })
}

proof fn lemma_word_casts(iv: Interval)
    ensures
        (iv.min_id as u64) as i64 == iv.min_id,
        (iv.max_id as u64) as i64 == iv.max_id,
        (iv.blob.byte_len as u64) as usize == iv.blob.byte_len,
        (iv.blob.len as u64) as usize == iv.blob.len,
{
    let a = iv.min_id;
    let b = iv.max_id;
    assert((a as u64) as i64 == a) by (bit_vector);
    assert((b as u64) as i64 == b) by (bit_vector);
}

proof fn lemma_words_len(s: Seq<Interval>)
    ensures
        words_of(s).len() == 5 * s.len(),
    decreases s.len(),
{
    if s.len() > 0 {
        lemma_words_len(s.drop_last());
    }
}

proof fn lemma_intervals_of_words(s: Seq<Interval>)
    ensures
        intervals_of(words_of(s)) == s,
    decreases s.len(),
{
    lemma_words_len(s);
    if s.len() > 0 {
        let t = s.drop_last();
        lemma_intervals_of_words(t);
        lemma_words_len(t);
        let w = words_of(s);
        let wt = words_of(t);
        assert(w == wt + interval_words(s.last()));
        assert forall|i: int| 0 <= i < s.len() implies #[trigger] intervals_of(w)[i] == s[i] by {
            if i < t.len() {
                assert(5 * i + 4 < wt.len()) by (nonlinear_arith)
                    requires
                        0 <= i < t.len(),
                        wt.len() == 5 * t.len(),
                ;
                assert(w[5 * i] == wt[5 * i]);
                assert(w[5 * i + 1] == wt[5 * i + 1]);
                assert(w[5 * i + 2] == wt[5 * i + 2]);
                assert(w[5 * i + 3] == wt[5 * i + 3]);
                assert(w[5 * i + 4] == wt[5 * i + 4]);
                assert(intervals_of(wt)[i] == t[i]);
                assert(t[i] == s[i]);
            } else {
                assert(5 * i == wt.len());
                lemma_word_casts(s.last());
            }
        }
        assert(intervals_of(w) =~= s);
    } else {
        assert(intervals_of(words_of(s)) =~= s);
    }
}

proof fn lemma_kind_round_trip(s: Seq<Interval>, rest: Seq<u8>)
    requires
        s.len() * 5 <= u64::MAX,
    ensures
        kind_spec(kind_bytes(s) + rest) == Ok::<(Seq<Interval>, nat), VarintError>((s, kind_bytes(s).len())),
{
    let e = varint_bytes(s.len());
    let w = words_of(s);
    lemma_words_len(s);
    let b = kind_bytes(s) + rest;
    assert(b =~= e + (varints_bytes(w) + rest));
    varint::lemma_decode_encode(s.len() as u64, varints_bytes(w) + rest);
    assert(b.skip(e.len() as int) =~= varints_bytes(w) + rest);
    encoder::lemma_varints_round_trip(w, rest);
    lemma_intervals_of_words(s);
}

/// Reading the scan file of a table gives back its intervals, kind by kind.
pub proof fn lemma_table_round_trip(t: ScanTable)
    requires
        t.nodes@.len() * 5 <= u64::MAX,
        t.ways@.len() * 5 <= u64::MAX,
        t.relations@.len() * 5 <= u64::MAX,
    ensures
        table_spec(table_bytes(t)) == Ok::<(Seq<Interval>, Seq<Interval>, Seq<Interval>), VarintError>(
            (t.nodes@, t.ways@, t.relations@),
        ),
{
    let a = kind_bytes(t.nodes@);
    let w = kind_bytes(t.ways@);
    let r = kind_bytes(t.relations@);
    let b = table_bytes(t);
    assert(b =~= a + (w + r));
    lemma_kind_round_trip(t.nodes@, w + r);
    assert(b.skip(a.len() as int) =~= w + r);
    lemma_kind_round_trip(t.ways@, r);
    assert(b.skip((a.len() + w.len()) as int) =~= r + Seq::<u8>::empty());
    lemma_kind_round_trip(t.relations@, Seq::<u8>::empty());
}

} // verus!

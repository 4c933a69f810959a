use vstd::prelude::*;
use std::collections::HashSet;

verus! {

broadcast use vstd::std_specs::hash::group_hash_axioms;

/// The three kinds of OSM element.
#[derive(Debug, Clone, Copy, PartialEq, Eq, Structural)]
pub enum Kind {
    Node,
    Way,
    Relation,
}

/// Where a blob lies in the file and how many elements it holds.
#[derive(Debug, Clone, Copy, PartialEq, Eq, Structural)]
pub struct BlobRef {
    pub offset: u64,
    pub byte_len: usize,
    pub len: usize,
}

/// A blob and the smallest and largest element id in it.
#[derive(Debug, Clone, Copy, PartialEq, Eq, Structural)]
pub struct Interval {
    pub min_id: i64,
    pub max_id: i64,
    pub blob: BlobRef,
}

/// For each element kind, the blobs that hold elements of that kind, with
/// their id ranges. Ranges may overlap, and two blobs with the same range are
/// both kept, so a lookup finds every blob that may hold an id; a table keyed
/// by range would keep only one of them.
#[derive(Debug, Clone)]
pub struct ScanTable {
    pub nodes: Vec<Interval>,
    pub ways: Vec<Interval>,
    pub relations: Vec<Interval>,
}

/// The interval holds `id`.
pub open spec fn contains_id(iv: Interval, id: i64) -> bool {
    iv.min_id <= id <= iv.max_id
}

/// The blobs of the intervals of `s` that hold `id`, in order.
pub open spec fn containing(s: Seq<Interval>, id: i64) -> Seq<BlobRef>
    decreases s.len(),
{
    if s.len() == 0 {
        Seq::empty()
    } else if contains_id(s.last(), id) {
        containing(s.drop_last(), id).push(s.last().blob)
    } else {
        containing(s.drop_last(), id)
    }
}

impl ScanTable {
    /// The intervals of one kind.
    pub open spec fn of_kind(&self, kind: Kind) -> Seq<Interval> {
        match kind {
            Kind::Node => self.nodes@,
            Kind::Way => self.ways@,
            Kind::Relation => self.relations@,
        }
    }

    /// A table with no blob.
    pub fn new() -> (r: ScanTable)
        ensures
            r.nodes@.len() == 0,
            r.ways@.len() == 0,
            r.relations@.len() == 0,
    {
        ScanTable { nodes: Vec::new(), ways: Vec::new(), relations: Vec::new() }
    }

    /// The intervals of one kind.
    pub fn intervals(&self, kind: Kind) -> (r: &Vec<Interval>)
        ensures
            r@ == self.of_kind(kind),
    {
        match kind {
            Kind::Node => &self.nodes,
            Kind::Way => &self.ways,
            Kind::Relation => &self.relations,
        }
    }

    /// Records that the blob `blob` holds elements of `kind` with ids from
    /// `min_id` to `max_id`.
    pub fn insert(&mut self, kind: Kind, min_id: i64, max_id: i64, blob: BlobRef)
        ensures
            forall|k: Kind| #[trigger] final(self).of_kind(k) == if k == kind {
                old(self).of_kind(k).push(Interval { min_id, max_id, blob })
            } else {
                old(self).of_kind(k)
            },
    {
        let iv = Interval { min_id, max_id, blob };
        match kind {
            Kind::Node => self.nodes.push(iv),
            Kind::Way => self.ways.push(iv),
            Kind::Relation => self.relations.push(iv),
        }
    }

    /// Adds every interval of `other`.
    pub fn extend(&mut self, other: &ScanTable)
        ensures
            forall|k: Kind| #[trigger] final(self).of_kind(k) == old(self).of_kind(k) + other.of_kind(k),
    {
        let mut i: usize = 0;
        while i < other.nodes.len()
            invariant
                i <= other.nodes@.len(),
                self.nodes@ == old(self).nodes@ + other.nodes@.take(i as int),
                self.ways@ == old(self).ways@,
                self.relations@ == old(self).relations@,
            decreases other.nodes@.len() - i,
        {
            self.nodes.push(other.nodes[i]);
            assert(other.nodes@.take(i + 1) =~= other.nodes@.take(i as int).push(other.nodes@[i as int]));
            i = i + 1;
        }
        let mut i: usize = 0;
        while i < other.ways.len()
            invariant
                i <= other.ways@.len(),
                self.nodes@ == old(self).nodes@ + other.nodes@,
                self.ways@ == old(self).ways@ + other.ways@.take(i as int),
                self.relations@ == old(self).relations@,
            decreases other.ways@.len() - i,
        {
            self.ways.push(other.ways[i]);
            assert(other.ways@.take(i + 1) =~= other.ways@.take(i as int).push(other.ways@[i as int]));
            i = i + 1;
        }
        let mut i: usize = 0;
        while i < other.relations.len()
            invariant
                i <= other.relations@.len(),
                self.nodes@ == old(self).nodes@ + other.nodes@,
                self.ways@ == old(self).ways@ + other.ways@,
                self.relations@ == old(self).relations@ + other.relations@.take(i as int),
            decreases other.relations@.len() - i,
        {
            self.relations.push(other.relations[i]);
            assert(other.relations@.take(i + 1) =~= other.relations@.take(i as int).push(
                other.relations@[i as int],
            ));
            i = i + 1;
        }
        assert(other.nodes@.take(other.nodes@.len() as int) =~= other.nodes@);
        assert(other.ways@.take(other.ways@.len() as int) =~= other.ways@);
        assert(other.relations@.take(other.relations@.len() as int) =~= other.relations@);
    }

    /// Every blob of `kind` whose id range holds `id`, in table order.
    pub fn blobs_containing(&self, kind: Kind, id: i64) -> (r: Vec<BlobRef>)
        ensures
            r@ == containing(self.of_kind(kind), id),
    {
        let ivs = self.intervals(kind);
        let mut out: Vec<BlobRef> = Vec::new();
        let mut i: usize = 0;
        while i < ivs.len()
            invariant
                i <= ivs@.len(),
                out@ == containing(ivs@.take(i as int), id),
            decreases ivs@.len() - i,
        {
            assert(ivs@.take(i + 1).drop_last() =~= ivs@.take(i as int));
            if ivs[i].min_id <= id && id <= ivs[i].max_id {
                out.push(ivs[i].blob);
            }
            i = i + 1;
        }
        assert(ivs@.take(i as int) =~= ivs@);
        out
    }

    /// Every blob of `kind`, in table order.
    pub fn blob_offsets(&self, kind: Kind) -> (r: Vec<BlobRef>)
        ensures
            r@.len() == self.of_kind(kind).len(),
            forall|i: int| 0 <= i < r@.len() ==> #[trigger] r@[i] == self.of_kind(kind)[i].blob,
    {
        let ivs = self.intervals(kind);
        let mut out: Vec<BlobRef> = Vec::new();
        let mut i: usize = 0;
        while i < ivs.len()
            invariant
                i <= ivs@.len(),
                out@.len() == i,
                forall|j: int| 0 <= j < i ==> #[trigger] out@[j] == ivs@[j].blob,
            decreases ivs@.len() - i,
        {
            out.push(ivs[i].blob);
            i = i + 1;
        }
        out
    }
}

/// The interval that a scanned blob adds to the table: the smallest and
/// largest of the ids of its elements. `None` for a blob with no element.
/// Every element of the blob then lies in the interval.
pub fn blob_interval(ids: &Vec<i64>, blob: BlobRef) -> (r: Option<Interval>)
    ensures
        ids@.len() == 0 ==> r is None,
        ids@.len() > 0 ==> match r {
            Some(iv) => iv.blob == blob && (forall|i: int| 0 <= i < ids@.len() ==> contains_id(iv, #[trigger] ids@[i]))
                && (exists|i: int| 0 <= i < ids@.len() && #[trigger] ids@[i] == iv.min_id)
                && (exists|i: int| 0 <= i < ids@.len() && #[trigger] ids@[i] == iv.max_id),
            None => false,
        },
{
    if ids.len() == 0 {
        return None;
    }
    let mut lo = ids[0];
    let mut hi = ids[0];
    let ghost mut lo_at: int = 0;
    let ghost mut hi_at: int = 0;
    let mut i: usize = 1;
    while i < ids.len()
        invariant
            1 <= i <= ids@.len(),
            0 <= lo_at < ids@.len(),
            0 <= hi_at < ids@.len(),
            ids@[lo_at] == lo,
            ids@[hi_at] == hi,
            forall|j: int| 0 <= j < i ==> lo <= #[trigger] ids@[j] <= hi,
        decreases ids@.len() - i,
    {
        let x = ids[i];
        if x < lo {
            lo = x;
            proof {
                lo_at = i as int;
            }
        }
        if x > hi {
            hi = x;
            proof {
                hi_at = i as int;
            }
        }
        i = i + 1;
    }
    Some(Interval { min_id: lo, max_id: hi, blob })
}

/// Some id of `ids` lies in the interval.
pub open spec fn holds_any(iv: Interval, ids: Seq<i64>) -> bool {
    exists|j: int| 0 <= j < ids.len() && contains_id(iv, #[trigger] ids[j])
}

/// `p` is the `(offset, byte_len)` of a blob among `ivs` that holds one of `ids`.
pub open spec fn from_some_blob(p: (u64, usize), ivs: Seq<Interval>, ids: Seq<i64>) -> bool {
    exists|i: int| 0 <= i < ivs.len() && holds_any(#[trigger] ivs[i], ids) && p == (
        ivs[i].blob.offset,
        ivs[i].blob.byte_len,
    )
}

/// The blobs among `ivs` that hold one of `ids`, each offset once, as
/// `(offset, byte_len)` pairs.
pub open spec fn covers_ids(r: Seq<(u64, usize)>, ivs: Seq<Interval>, ids: Seq<i64>) -> bool {
    &&& forall|k: int| 0 <= k < r.len() ==> from_some_blob(#[trigger] r[k], ivs, ids)
    &&& forall|i: int| 0 <= i < ivs.len() && holds_any(#[trigger] ivs[i], ids) ==> exists|k: int|
        0 <= k < r.len() && r[k].0 == ivs[i].blob.offset
    &&& forall|a: int, b: int| 0 <= a < b < r.len() ==> r[a].0 != r[b].0
}

/// The blobs of `kind` in `table` that hold one of `ids`: each blob once, as
/// `(offset, byte_len)`.
pub fn offsets_for_ids(table: &ScanTable, kind: Kind, ids: &Vec<i64>) -> (r: Vec<(u64, usize)>)
    ensures
        covers_ids(r@, table.of_kind(kind), ids@),
{
    let ivs = table.intervals(kind);
    let mut seen: HashSet<u64> = HashSet::new();
    let mut out: Vec<(u64, usize)> = Vec::new();
    let mut j: usize = 0;
    while j < ids.len()
        invariant
            j <= ids@.len(),
            ivs@ == table.of_kind(kind),
            forall|x: u64| #[trigger] seen@.contains(x) <==> exists|k: int| 0 <= k < out@.len() && out@[k].0 == x,
            forall|k: int| 0 <= k < out@.len() ==> from_some_blob(#[trigger] out@[k], ivs@, ids@),
            forall|i: int, jj: int| 0 <= i < ivs@.len() && 0 <= jj < j && contains_id(#[trigger] ivs@[i], #[trigger] ids@[jj])
                ==> seen@.contains(ivs@[i].blob.offset),
            forall|a: int, b: int| 0 <= a < b < out@.len() ==> out@[a].0 != out@[b].0,
        decreases ids@.len() - j,
    {
        let id = ids[j];
        let mut i: usize = 0;
        while i < ivs.len()
            invariant
                i <= ivs@.len(),
                j < ids@.len(),
                id == ids@[j as int],
                ivs@ == table.of_kind(kind),
                forall|x: u64| #[trigger] seen@.contains(x) <==> exists|k: int| 0 <= k < out@.len() && out@[k].0 == x,
                forall|k: int| 0 <= k < out@.len() ==> from_some_blob(#[trigger] out@[k], ivs@, ids@),
                forall|ii: int, jj: int| 0 <= ii < ivs@.len() && 0 <= jj < j && contains_id(#[trigger] ivs@[ii], #[trigger] ids@[jj])
                    ==> seen@.contains(ivs@[ii].blob.offset),
                forall|ii: int| 0 <= ii < i && contains_id(#[trigger] ivs@[ii], id) ==> seen@.contains(ivs@[ii].blob.offset),
                forall|a: int, b: int| 0 <= a < b < out@.len() ==> out@[a].0 != out@[b].0,
            decreases ivs@.len() - i,
        {
            let iv = ivs[i];
            if iv.min_id <= id && id <= iv.max_id && !seen.contains(&iv.blob.offset) {
                proof {
                    assert(holds_any(ivs@[i as int], ids@)) by {
                        assert(contains_id(ivs@[i as int], ids@[j as int]));
                    }
                }
                let ghost out0 = out@;
                let ghost seen0 = seen@;
                seen.insert(iv.blob.offset);
                out.push((iv.blob.offset, iv.blob.byte_len));
                proof {
                    let n = out0.len();
                    assert(seen@ == seen0.insert(iv.blob.offset));
                    assert forall|x: u64| #[trigger] seen@.contains(x) implies exists|k: int| 0 <= k < out@.len() && out@[k].0 == x by {
                        if x == iv.blob.offset {
                            assert(out@[n as int].0 == x);
                        } else {
                            assert(seen0.contains(x));
                            let k = choose|k: int| 0 <= k < out0.len() && out0[k].0 == x;
                            assert(out@[k] == out0[k]);
                        }
                    }
                    assert forall|x: u64| (exists|k: int| 0 <= k < out@.len() && out@[k].0 == x) implies #[trigger] seen@.contains(x) by {
                        let k = choose|k: int| 0 <= k < out@.len() && out@[k].0 == x;
                        if k < n {
                            assert(out0[k] == out@[k]);
                            assert(seen0.contains(x));
                        }
                    }
                    assert forall|k: int| 0 <= k < out@.len() implies from_some_blob(#[trigger] out@[k], ivs@, ids@) by {
                        if k == n {
                            assert(holds_any(ivs@[i as int], ids@));
                        } else {
                            assert(out@[k] == out0[k]);
                        }
                    }
                    assert forall|a: int, b: int| 0 <= a < b < out@.len() implies out@[a].0 != out@[b].0 by {
                        if b == n {
                            assert(out@[a] == out0[a]);
                            assert(!seen0.contains(iv.blob.offset));
                        } else {
                            assert(out@[a] == out0[a]);
                            assert(out@[b] == out0[b]);
                        }
                    }
                }
            }
            i = i + 1;
        }
        j = j + 1;
    }
    proof {
        assert forall|i: int| 0 <= i < ivs@.len() && holds_any(#[trigger] ivs@[i], ids@) implies exists|k: int|
            0 <= k < out@.len() && out@[k].0 == ivs@[i].blob.offset by {
            let jj = choose|jj: int| 0 <= jj < ids@.len() && contains_id(ivs@[i], #[trigger] ids@[jj]);
            assert(seen@.contains(ivs@[i].blob.offset));
        }
    }
    out
}

/// `a` comes before `b`, or is equal to it, in the order of tuples.
pub open spec fn lex_le(a: (u64, usize, usize), b: (u64, usize, usize)) -> bool {
    a.0 < b.0 || (a.0 == b.0 && (a.1 < b.1 || (a.1 == b.1 && a.2 <= b.2)))
}

/// `s` is in ascending order.
pub open spec fn sorted_blobs(s: Seq<(u64, usize, usize)>) -> bool {
    forall|a: int, b: int| 0 <= a < b < s.len() ==> lex_le(#[trigger] s[a], #[trigger] s[b])
}

/// Relies on `slice::sort_unstable`: afterwards the same elements stand in
/// ascending order, tuples compared field by field.
#[verifier::external_body]
fn sort_blobs(v: &mut Vec<(u64, usize, usize)>)
    ensures
        final(v)@.to_multiset() == old(v)@.to_multiset(),
        sorted_blobs(final(v)@),
{
    v.sort_unstable();
}

/// The blobs of one bounded pass over `s` (in file order), from offset
/// `start` on: blobs before `start` are skipped; a blob past `start` whose
/// elements would bring the total over `n` ends the pass and is where the next
/// one starts. `count` is the total so far.
pub open spec fn window_spec(s: Seq<(u64, usize, usize)>, start: u64, n: nat, count: nat) -> (
    Option<u64>,
    Seq<(u64, usize)>,
)
    decreases s.len(),
{
    if s.len() == 0 {
        (None, Seq::empty())
    } else {
        let b = s[0];
        if b.0 < start {
            window_spec(s.drop_first(), start, n, count)
        } else if count + b.2 > n && b.0 > start {
            (Some(b.0), Seq::empty())
        } else {
            let r = window_spec(s.drop_first(), start, n, (count + b.2) as nat);
            (r.0, seq![(b.0, b.1)] + r.1)
        }
    }
}

/// Puts the blobs already taken in front of the rest of a pass.
pub open spec fn after(taken: Seq<(u64, usize)>, r: (Option<u64>, Seq<(u64, usize)>)) -> (
    Option<u64>,
    Seq<(u64, usize)>,
) {
    (r.0, taken + r.1)
}

fn take_window(s: &Vec<(u64, usize, usize)>, start: u64, n: usize) -> (r: (Option<u64>, Vec<(u64, usize)>))
    ensures
        (r.0, r.1@) == window_spec(s@, start, n as nat, 0),
{
    let mut taken: Vec<(u64, usize)> = Vec::new();
    let mut count: u128 = 0;
    let mut i: usize = 0;
    assert(s@.skip(0) =~= s@);
    assert(Seq::<(u64, usize)>::empty() + window_spec(s@, start, n as nat, 0).1 =~= window_spec(s@, start, n as nat, 0).1);
    while i < s.len()
        invariant
            i <= s@.len(),
            count <= i * 0x1_0000_0000_0000_0000,
            window_spec(s@, start, n as nat, 0) == after(taken@, window_spec(s@.skip(i as int), start, n as nat, count as nat)),
        decreases s@.len() - i,
    {
        let b = s[i];
        let ghost rest = s@.skip(i as int);
        proof {
            assert(rest.drop_first() =~= s@.skip(i + 1));
            assert(rest[0] == b);
        }
        if b.0 < start {
        } else if count + b.2 as u128 > n as u128 && b.0 > start {
            return (Some(b.0), taken);
        } else {
            let ghost t0 = taken@;
            taken.push((b.0, b.1));
            count = count + b.2 as u128;
            proof {
                let r = window_spec(s@.skip(i + 1), start, n as nat, count as nat);
                assert(t0 + (seq![(b.0, b.1)] + r.1) =~= taken@ + r.1);
            }
        }
        i = i + 1;
    }
    assert(taken@ + Seq::<(u64, usize)>::empty() =~= taken@);
    (None, taken)
}

/// The window of blobs of `kind` in `table` that one bounded pass from offset
/// `start` reads, with at most `n` elements unless its first blob alone has
/// more, as `(offset, byte_len)` in file order; and the offset where the next
/// pass starts, or `None` when the pass reaches the end. When no two blobs
/// share an offset, the window holds exactly the blobs from `start` up to
/// where the next pass starts, which lies past `start`.
pub fn window(table: &ScanTable, kind: Kind, start: u64, n: usize) -> (r: (Option<u64>, Vec<(u64, usize)>))
    ensures
        exists|s: Seq<(u64, usize, usize)>|
            sorted_blobs(s) && s.to_multiset() == blob_tuples(table.of_kind(kind)).to_multiset() && (r.0, r.1@)
                == window_spec(s, start, n as nat, 0) && (distinct_offsets(s) ==> r.1@ == in_range(
                s,
                start,
                r.0,
            ) && (r.0 matches Some(o) ==> o > start)),
{
    let ivs = table.intervals(kind);
    let mut v: Vec<(u64, usize, usize)> = Vec::new();
    let mut i: usize = 0;
    while i < ivs.len()
        invariant
            i <= ivs@.len(),
            v@ == blob_tuples(ivs@.take(i as int)),
        decreases ivs@.len() - i,
    {
        let b = ivs[i].blob;
        v.push((b.offset, b.byte_len, b.len));
        proof {
            assert(ivs@.take(i + 1).drop_last() =~= ivs@.take(i as int));
            assert(v@ =~= blob_tuples(ivs@.take(i + 1)));
        }
        i = i + 1;
    }
    assert(ivs@.take(i as int) =~= ivs@);
    sort_blobs(&mut v);
    let r = take_window(&v, start, n);
    proof {
        if distinct_offsets(v@) {
            lemma_window_covers(v@, start, n as nat);
        }
    }
    r
}

/// No two blobs of `s` share an offset.
pub open spec fn distinct_offsets(s: Seq<(u64, usize, usize)>) -> bool {
    forall|a: int, b: int| 0 <= a < b < s.len() ==> (#[trigger] s[a]).0 != (#[trigger] s[b]).0
}

/// The `(offset, byte_len, len)` of each interval's blob.
pub open spec fn blob_tuples(ivs: Seq<Interval>) -> Seq<(u64, usize, usize)> {
    ivs.map_values(|iv: Interval| (iv.blob.offset, iv.blob.byte_len, iv.blob.len))
}

/// Offsets strictly ascending.
pub open spec fn offsets_ascending(s: Seq<(u64, usize, usize)>) -> bool {
    forall|a: int, b: int| 0 <= a < b < s.len() ==> (#[trigger] s[a]).0 < (#[trigger] s[b]).0
}

/// The `(offset, byte_len)` of the blobs of `s` with offset at least `lo` and,
/// when `hi` is given, below it.
pub open spec fn in_range(s: Seq<(u64, usize, usize)>, lo: u64, hi: Option<u64>) -> Seq<(u64, usize)>
    decreases s.len(),
{
    if s.len() == 0 {
        Seq::empty()
    } else {
        let rest = in_range(s.drop_first(), lo, hi);
        if s[0].0 >= lo && (hi is None || s[0].0 < hi->Some_0) {
            seq![(s[0].0, s[0].1)] + rest
        } else {
            rest
        }
    }
}

proof fn lemma_in_range_empty(s: Seq<(u64, usize, usize)>, lo: u64, hi: u64)
    requires
        forall|k: int| 0 <= k < s.len() ==> (#[trigger] s[k]).0 >= hi,
    ensures
        in_range(s, lo, Some(hi)) == Seq::<(u64, usize)>::empty(),
    decreases s.len(),
{
    if s.len() > 0 {
        lemma_in_range_empty(s.drop_first(), lo, hi);
    }
}

proof fn lemma_window_range(s: Seq<(u64, usize, usize)>, start: u64, n: nat, count: nat)
    requires
        offsets_ascending(s),
    ensures
        window_spec(s, start, n, count).1 == in_range(s, start, window_spec(s, start, n, count).0),
        window_spec(s, start, n, count).0 matches Some(o) ==> o > start && s.len() > 0 && o
            >= s[0].0,
    decreases s.len(),
{
    if s.len() > 0 {
        let b = s[0];
        let t = s.drop_first();
        assert(offsets_ascending(t)) by {
            assert forall|a: int, c: int| 0 <= a < c < t.len() implies (#[trigger] t[a]).0 < (#[trigger] t[c]).0 by {
                assert(t[a] == s[a + 1] && t[c] == s[c + 1]);
            }
        }
        if b.0 < start {
            lemma_window_range(t, start, n, count);
            let w = window_spec(t, start, n, count);
            if let Some(o) = w.0 {
                assert(t[0] == s[1]);
            }
        } else if count + b.2 > n && b.0 > start {
            assert forall|k: int| 0 <= k < t.len() implies (#[trigger] t[k]).0 >= b.0 by {
                assert(t[k] == s[k + 1]);
            }
            lemma_in_range_empty(t, start, b.0);
        } else {
            lemma_window_range(t, start, n, (count + b.2) as nat);
            let w = window_spec(t, start, n, (count + b.2) as nat);
            if let Some(o) = w.0 {
                assert(t[0] == s[1]);
                assert(s[0].0 < s[1].0);
            }
        }
    }
}

/// For blobs with distinct offsets, each pass holds exactly the blobs whose
/// offsets lie from its start up to where the next pass starts (to the end
/// when none does), and the next pass starts past this one's start. So the
/// passes from offset 0 on, each from where the last one stopped, read every
/// blob once.
pub proof fn lemma_window_covers(s: Seq<(u64, usize, usize)>, start: u64, n: nat)
    requires
        sorted_blobs(s),
        distinct_offsets(s),
    ensures
        window_spec(s, start, n, 0).1 == in_range(s, start, window_spec(s, start, n, 0).0),
        window_spec(s, start, n, 0).0 matches Some(o) ==> o > start,
{
    assert(offsets_ascending(s)) by {
        assert forall|a: int, b: int| 0 <= a < b < s.len() implies (#[trigger] s[a]).0 < (#[trigger] s[b]).0 by {
            assert(lex_le(s[a], s[b]));
        }
    }
    lemma_window_range(s, start, n, 0);
}

} // verus!

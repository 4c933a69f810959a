use vstd::prelude::*;
use std::collections::HashMap;
use crate::value::{V, record_id};

verus! {

broadcast use vstd::std_specs::hash::group_hash_axioms;

/// One coordinate of a stored point, in units of 1e-7 degree.
#[derive(Debug, Clone, Copy, PartialEq, Eq, Structural)]
pub enum Coord {
    Scalar(i32),
    Interval(i32, i32),
}

/// A stored point.
#[derive(Debug, Clone, Copy, PartialEq, Eq, Structural)]
pub struct Point {
    pub x: Coord,
    pub y: Coord,
}

/// A command for the spatial store.
#[derive(Debug, Clone)]
pub enum Row {
    Insert(Point, V),
    Delete(Point, u64),
}

/// A row as the contracts see it: the record's bytes in place of the value.
pub enum RowView {
    Insert(Point, Seq<u8>),
    Delete(Point, u64),
}

impl View for Row {
    type V = RowView;

    open spec fn view(&self) -> RowView {
        match self {
            Row::Insert(p, v) => RowView::Insert(*p, v.data@),
            Row::Delete(p, id) => RowView::Delete(*p, *id),
        }
    }
}

/// The view of each slot.
pub open spec fn slots_view(b: Seq<Option<Row>>) -> Seq<Option<RowView>> {
    b.map_values(|o: Option<Row>| match o {
        Some(r) => Some(r@),
        None => None,
    })
}

/// The pending operation of one external id, by slot in the batch.
#[derive(Debug, Clone, Copy, PartialEq, Eq, Structural)]
pub enum Op {
    Insert(usize),
    /// The slots of a delete and of the insert that follows it.
    Update(usize, usize),
    Delete(usize),
}

/// The rows that a batch of slots ships: the filled slots, in order.
pub open spec fn net(b: Seq<Option<RowView>>) -> Seq<RowView>
    decreases b.len(),
{
    if b.len() == 0 {
        Seq::empty()
    } else {
        match b.last() {
            Some(row) => net(b.drop_last()).push(row),
            None => net(b.drop_last()),
        }
    }
}

/// A copy of a row.
fn copy_row(r: &Row) -> (c: Row)
    ensures
        c@ == r@,
{
    match r {
        Row::Insert(p, v) => Row::Insert(*p, V::new(vstd::slice::slice_to_vec(v.data.as_slice()))),
        Row::Delete(p, id) => Row::Delete(*p, *id),
    }
}

/// The views of a sequence of rows.
pub open spec fn rows_view(s: Seq<Row>) -> Seq<RowView> {
    s.map_values(|r: Row| r@)
}

/// Slot `i` holds an insert of a record with external id `id`.
pub open spec fn is_insert_of(b: Seq<Option<RowView>>, i: int, id: u64) -> bool {
    0 <= i < b.len() && match b[i] {
        Some(RowView::Insert(_, v)) => record_id(v) == Some(id as nat),
        _ => false,
    }
}

/// Slot `i` holds a delete of external id `id`.
pub open spec fn is_delete_of(b: Seq<Option<RowView>>, i: int, id: u64) -> bool {
    0 <= i < b.len() && match b[i] {
        Some(RowView::Delete(_, d)) => d == id,
        _ => false,
    }
}

/// The pending batch of writes for the spatial store, with at most one net
/// operation per external id.
pub struct EStore {
    pub batch_size: usize,
    pub batch: Vec<Option<Row>>,
    pub inserts: HashMap<u64, Op>,
    pub sync_interval: usize,
    pub flush_count: usize,
}

impl EStore {
    /// The slots of the batch.
    pub open spec fn slots(&self) -> Seq<Option<RowView>> {
        slots_view(self.batch@)
    }

    /// Every tracked operation points at slots that hold it.
    pub open spec fn wf(&self) -> bool {
        forall|id: u64| #[trigger] self.inserts@.contains_key(id) ==> match self.inserts@[id] {
            Op::Insert(i) => is_insert_of(self.slots(), i as int, id),
            Op::Update(i, j) => is_delete_of(self.slots(), i as int, id) && is_insert_of(
                self.slots(),
                j as int,
                id,
            ),
            Op::Delete(i) => is_delete_of(self.slots(), i as int, id),
        }
    }

    /// What `push_create` does.
    pub open spec fn create_spec(old: &EStore, new: &EStore, point: Point, value: V, id: u64) -> bool {
        &&& new.slots() == old.slots().push(Some(RowView::Insert(point, value.data@)))
        &&& new.inserts@ == old.inserts@.insert(id, Op::Insert(old.slots().len() as usize))
        &&& new.batch_size == old.batch_size
        &&& new.sync_interval == old.sync_interval
        &&& new.flush_count == old.flush_count
    }

    /// What `push_update` does.
    pub open spec fn update_spec(
        old: &EStore,
        new: &EStore,
        prev_point: Point,
        new_point: Point,
        value: V,
        id: u64,
    ) -> bool {
        let ins = Some(RowView::Insert(new_point, value.data@));
        let n = old.slots().len();
        &&& new.batch_size == old.batch_size
        &&& new.sync_interval == old.sync_interval
        &&& new.flush_count == old.flush_count
        &&& if old.inserts@.contains_key(id) {
            match old.inserts@[id] {
                Op::Insert(i) => new.slots() == old.slots().update(i as int, ins) && new.inserts@
                    == old.inserts@,
                Op::Update(_, j) => new.slots() == old.slots().update(j as int, ins) && new.inserts@
                    == old.inserts@,
                Op::Delete(i) => new.slots() == old.slots().push(ins) && new.inserts@
                    == old.inserts@.insert(id, Op::Update(i, n as usize)),
            }
        } else {
            new.slots() == old.slots().push(Some(RowView::Delete(prev_point, id))).push(ins)
                && new.inserts@ == old.inserts@.insert(id, Op::Update(n as usize, (n + 1) as usize))
        }
    }

    /// What `push_delete` does.
    pub open spec fn delete_spec(old: &EStore, new: &EStore, point: Point, id: u64) -> bool {
        &&& new.batch_size == old.batch_size
        &&& new.sync_interval == old.sync_interval
        &&& new.flush_count == old.flush_count
        &&& if old.inserts@.contains_key(id) {
            match old.inserts@[id] {
                Op::Insert(i) => new.slots() == old.slots().update(i as int, None) && new.inserts@
                    == old.inserts@.remove(id),
                Op::Update(i, j) => new.slots() == old.slots().update(j as int, None)
                    && new.inserts@ == old.inserts@.insert(id, Op::Delete(i)),
                Op::Delete(_) => new.slots() == old.slots() && new.inserts@ == old.inserts@,
            }
        } else {
            new.slots() == old.slots().push(Some(RowView::Delete(point, id))) && new.inserts@
                == old.inserts@.insert(id, Op::Delete(old.slots().len() as usize))
        }
    }

    /// An empty batch: 10,000 rows per flush, a sync every 10 flushes.
    pub fn new() -> (r: EStore)
        ensures
            r.wf(),
            r.batch@.len() == 0,
            r.inserts@.len() == 0,
            r.batch_size == 10_000,
            r.sync_interval == 10,
            r.flush_count == 0,
    {
        EStore {
            batch_size: 10_000,
            batch: Vec::new(),
            inserts: HashMap::new(),
            sync_interval: 10,
            flush_count: 0,
        }
    }

    /// Queues the insert of `value` at `point`.
    pub fn push_create(&mut self, point: Point, value: V)
        requires
            old(self).wf(),
            record_id(value.data@) is Some,
            old(self).batch@.len() < usize::MAX,
        ensures
            final(self).wf(),
            EStore::create_spec(old(self), final(self), point, value, record_id(value.data@)->Some_0 as u64),
    {
        let id = match value.get_id() {
            Some(id) => id,
            None => 0,
        };
        let ghost data = value.data@;
        let i = self.batch.len();
        self.inserts.insert(id, Op::Insert(i));
        self.batch.push(Some(Row::Insert(point, value)));
        proof {
            assert(self.slots() =~= old(self).slots().push(Some(RowView::Insert(point, data))));
            self.lemma_wf_after(old(self), id);
        }
    }

    /// Every id but `id` keeps its operation, whose slots keep their rows, and
    /// `id`'s operation holds: the store is well formed.
    proof fn lemma_wf_after(&self, prev: &EStore, id: u64)
        requires
            prev.wf(),
            prev.slots().len() <= self.slots().len(),
            forall|k: u64| k != id ==> (#[trigger] self.inserts@.contains_key(k) <==> prev.inserts@.contains_key(k)),
            forall|k: u64| k != id && #[trigger] self.inserts@.contains_key(k) ==> self.inserts@[k] == prev.inserts@[k],
            forall|k: u64, i: int| k != id && #[trigger] is_insert_of(prev.slots(), i, k) ==> is_insert_of(self.slots(), i, k),
            forall|k: u64, i: int| k != id && #[trigger] is_delete_of(prev.slots(), i, k) ==> is_delete_of(self.slots(), i, k),
            self.inserts@.contains_key(id) ==> match self.inserts@[id] {
                Op::Insert(i) => is_insert_of(self.slots(), i as int, id),
                Op::Update(i, j) => is_delete_of(self.slots(), i as int, id) && is_insert_of(self.slots(), j as int, id),
                Op::Delete(i) => is_delete_of(self.slots(), i as int, id),
            },
        ensures
            self.wf(),
    {
        assert forall|k: u64| #[trigger] self.inserts@.contains_key(k) implies match self.inserts@[k] {
            Op::Insert(i) => is_insert_of(self.slots(), i as int, k),
            Op::Update(i, j) => is_delete_of(self.slots(), i as int, k) && is_insert_of(self.slots(), j as int, k),
            Op::Delete(i) => is_delete_of(self.slots(), i as int, k),
        } by {
            if k != id {
                assert(prev.inserts@.contains_key(k));
                match prev.inserts@[k] {
                    Op::Insert(i) => {
                        assert(is_insert_of(prev.slots(), i as int, k));
                    },
                    Op::Update(i, j) => {
                        assert(is_delete_of(prev.slots(), i as int, k));
                        assert(is_insert_of(prev.slots(), j as int, k));
                    },
                    Op::Delete(i) => {
                        assert(is_delete_of(prev.slots(), i as int, k));
                    },
                }
            }
        }
    }

    /// Queues the replacement of the record at `prev_point` by `value` at
    /// `new_point`, folding it into what is pending for the same id.
    pub fn push_update(&mut self, prev_point: &Point, new_point: &Point, value: &V)
        requires
            old(self).wf(),
            record_id(value.data@) is Some,
            old(self).batch@.len() + 2 <= usize::MAX,
        ensures
            final(self).wf(),
            EStore::update_spec(
                old(self),
                final(self),
                *prev_point,
                *new_point,
                *value,
                record_id(value.data@)->Some_0 as u64,
            ),
    {
        let id = match value.get_id() {
            Some(id) => id,
            None => 0,
        };
        let v = V::new(value.data.clone());
        let ghost ins = Some(RowView::Insert(*new_point, value.data@));
        let n = self.batch.len();
        match self.inserts.get(&id) {
            Some(Op::Insert(i)) => {
                let i = *i;
                self.batch.set(i, Some(Row::Insert(*new_point, v)));
                proof {
                    assert(self.slots() =~= old(self).slots().update(i as int, ins));
                }
            },
            Some(Op::Update(_, j)) => {
                let j = *j;
                self.batch.set(j, Some(Row::Insert(*new_point, v)));
                proof {
                    assert(self.slots() =~= old(self).slots().update(j as int, ins));
                }
            },
            Some(Op::Delete(i)) => {
                let i = *i;
                self.batch.push(Some(Row::Insert(*new_point, v)));
                self.inserts.insert(id, Op::Update(i, n));
                proof {
                    assert(self.slots() =~= old(self).slots().push(ins));
                }
            },
            None => {
                self.batch.push(Some(Row::Delete(*prev_point, id)));
                self.batch.push(Some(Row::Insert(*new_point, v)));
                self.inserts.insert(id, Op::Update(n, n + 1));
                proof {
                    assert(self.slots() =~= old(self).slots().push(Some(RowView::Delete(*prev_point, id))).push(ins));
                }
            },
        }
        proof {
            assert forall|k: u64, i: int| k != id && #[trigger] is_insert_of(old(self).slots(), i, k) implies is_insert_of(self.slots(), i, k) by {
                if old(self).inserts@.contains_key(id) {
                    match old(self).inserts@[id] {
                        Op::Insert(x) => { assert(is_insert_of(old(self).slots(), x as int, id)); },
                        Op::Update(_, x) => { assert(is_insert_of(old(self).slots(), x as int, id)); },
                        Op::Delete(_) => {},
                    }
                }
            }
            self.lemma_wf_after(old(self), id);
        }
    }

    /// Queues the delete of external id `id` at `point`, folding it into what
    /// is pending for the same id.
    pub fn push_delete(&mut self, point: Point, id: u64)
        requires
            old(self).wf(),
            old(self).batch@.len() < usize::MAX,
        ensures
            final(self).wf(),
            EStore::delete_spec(old(self), final(self), point, id),
    {
        let n = self.batch.len();
        match self.inserts.get(&id) {
            Some(Op::Insert(i)) => {
                let i = *i;
                self.batch.set(i, None);
                self.inserts.remove(&id);
                proof {
                    assert(self.slots() =~= old(self).slots().update(i as int, None));
                }
            },
            Some(Op::Update(i, j)) => {
                let i = *i;
                let j = *j;
                self.batch.set(j, None);
                self.inserts.insert(id, Op::Delete(i));
                proof {
                    assert(self.slots() =~= old(self).slots().update(j as int, None));
                }
            },
            Some(Op::Delete(_)) => {},
            None => {
                self.batch.push(Some(Row::Delete(point, id)));
                self.inserts.insert(id, Op::Delete(n));
                proof {
                    assert(self.slots() =~= old(self).slots().push(Some(RowView::Delete(point, id))));
                }
            },
        }
        proof {
            assert forall|k: u64, i: int| k != id && #[trigger] is_insert_of(old(self).slots(), i, k) implies is_insert_of(self.slots(), i, k) by {
                if old(self).inserts@.contains_key(id) {
                    match old(self).inserts@[id] {
                        Op::Insert(x) => { assert(is_insert_of(old(self).slots(), x as int, id)); },
                        Op::Update(_, x) => { assert(is_insert_of(old(self).slots(), x as int, id)); },
                        Op::Delete(_) => {},
                    }
                }
            }
            self.lemma_wf_after(old(self), id);
        }
    }

    /// The rows that the next write ships: the filled slots, in order, as
    /// copies. The batch stays as it is until `flushed` says the write went
    /// through, so a failed write loses nothing. `None` when nothing is pending.
    pub fn flush(&self) -> (r: Option<Vec<Row>>)
        ensures
            self.batch@.len() == 0 ==> r is None,
            self.batch@.len() > 0 ==> match r {
                Some(rows) => rows_view(rows@) == net(self.slots()),
                None => false,
            },
    {
        if self.batch.len() == 0 {
            return None;
        }
        let mut out: Vec<Row> = Vec::new();
        let mut i: usize = 0;
        assert(rows_view(out@) =~= net(self.slots().take(0)));
        while i < self.batch.len()
            invariant
                i <= self.batch@.len(),
                rows_view(out@) == net(self.slots().take(i as int)),
            decreases self.batch@.len() - i,
        {
            proof {
                assert(self.slots().take(i + 1).drop_last() =~= self.slots().take(i as int));
            }
            match &self.batch[i] {
                Some(row) => {
                    let c = copy_row(row);
                    out.push(c);
                    proof {
                        assert(rows_view(out@) =~= rows_view(out@.drop_last()).push(c@));
                    }
                },
                None => {},
            }
            i = i + 1;
        }
        assert(self.slots().take(i as int) =~= self.slots());
        Some(out)
    }

    /// Records that the rows `flush` gave were written: starts an empty batch
    /// and counts the flush. When that count reaches `sync_interval` it starts
    /// again from zero and the result says the store is due its sync. Does
    /// nothing on an empty batch.
    pub fn flushed(&mut self) -> (sync: bool)
        requires
            old(self).wf(),
            old(self).flush_count < usize::MAX,
        ensures
            final(self).wf(),
            final(self).batch_size == old(self).batch_size,
            final(self).sync_interval == old(self).sync_interval,
            old(self).batch@.len() == 0 ==> !sync && *final(self) == *old(self),
            old(self).batch@.len() > 0 ==> final(self).batch@.len() == 0 && final(self).inserts@.len() == 0
                && sync == (old(self).flush_count + 1 >= old(self).sync_interval)
                && final(self).flush_count == if sync {
                0
            } else {
                old(self).flush_count + 1
            },
    {
        if self.batch.len() == 0 {
            return false;
        }
        self.batch.clear();
        self.inserts.clear();
        self.flush_count = self.flush_count + 1;
        if self.flush_count >= self.sync_interval {
            self.flush_count = 0;
            true
        } else {
            false
        }
    }

    /// Whether enough flushes have gone by that the store is due a sync.
    pub fn sync_due(&self) -> (r: bool)
        ensures
            r == (self.flush_count >= self.sync_interval),
    {
        self.flush_count >= self.sync_interval
    }

    /// Records a durability barrier, once every pending row was flushed: the
    /// result says whether any flush since the last barrier makes the store's
    /// own sync needed. The flush count starts again from zero.
    pub fn sync(&mut self) -> (r: bool)
        requires
            old(self).batch@.len() == 0,
        ensures
            r == (old(self).flush_count > 0),
            final(self).flush_count == 0,
            final(self).batch@ == old(self).batch@,
            final(self).inserts@ == old(self).inserts@,
            final(self).batch_size == old(self).batch_size,
            final(self).sync_interval == old(self).sync_interval,
    {
        let r = self.flush_count > 0;
        self.flush_count = 0;
        r
    }

    /// The batch holds at least `batch_size` slots.
    pub fn is_full(&self) -> (r: bool)
        ensures
            r == (self.slots().len() >= self.batch_size),
    {
        self.batch.len() >= self.batch_size
    }
}

/// Queuing the insert of a record and then the delete of its external id,
/// with no flush between, leaves the rows that the next flush ships as they
/// were; and where nothing was pending for that id, the tracked operations too.
pub proof fn lemma_insert_then_delete(
    s0: EStore,
    s1: EStore,
    s2: EStore,
    point: Point,
    value: V,
    del_point: Point,
)
    requires
        s0.wf(),
        s0.batch@.len() < usize::MAX,
        record_id(value.data@) is Some,
        EStore::create_spec(&s0, &s1, point, value, record_id(value.data@)->Some_0 as u64),
        EStore::delete_spec(&s1, &s2, del_point, record_id(value.data@)->Some_0 as u64),
    ensures
        net(s2.slots()) == net(s0.slots()),
        !s0.inserts@.contains_key(record_id(value.data@)->Some_0 as u64) ==> s2.inserts@
            == s0.inserts@,
{
    let id = record_id(value.data@)->Some_0 as u64;
    assert(s0.slots().len() == s0.batch@.len());
    assert(s1.inserts@.contains_key(id));
    assert(s1.inserts@[id] == Op::Insert(s0.slots().len() as usize));
    assert(s2.slots() == s1.slots().update(s0.slots().len() as int, None));
    assert(s2.slots() =~= s0.slots().push(None));
    assert(s0.slots().push(None).drop_last() =~= s0.slots());
    if !s0.inserts@.contains_key(id) {
        assert(s2.inserts@ =~= s0.inserts@);
    }
}

/// A write for the key-value store.
#[derive(Debug)]
pub enum LWrite {
    Put((Vec<u8>, Vec<u8>)),
    Del(Vec<u8>),
}

/// What is pending for a key.
#[derive(Debug, Clone, PartialEq, Eq, PartialOrd, Ord)]
pub enum LUpdate {
    Put(Vec<u8>),
    Del(),
}

/// A write as the contracts see it.
pub enum LWriteView {
    Put(Seq<u8>, Seq<u8>),
    Del(Seq<u8>),
}

impl View for LWrite {
    type V = LWriteView;

    open spec fn view(&self) -> LWriteView {
        match self {
            LWrite::Put((k, v)) => LWriteView::Put(k@, v@),
            LWrite::Del(k) => LWriteView::Del(k@),
        }
    }
}

/// The views of a sequence of writes.
pub open spec fn writes_view(s: Seq<LWrite>) -> Seq<LWriteView> {
    s.map_values(|w: LWrite| w@)
}

/// The update that a write records.
pub open spec fn update_of(w: LWriteView) -> (Seq<u8>, Option<Seq<u8>>) {
    match w {
        LWriteView::Put(k, v) => (k, Some(v)),
        LWriteView::Del(k) => (k, None),
    }
}

/// The views of pending updates: the key, and the value or `None` for a delete.
pub open spec fn updates_view(s: Seq<(Vec<u8>, LUpdate)>) -> Seq<(Seq<u8>, Option<Seq<u8>>)> {
    s.map_values(
        |u: (Vec<u8>, LUpdate)|
            (
                u.0@,
                match u.1 {
                    LUpdate::Put(v) => Some(v@),
                    LUpdate::Del() => None,
                },
            ),
    )
}

/// Writes for the key-value store, gathered into batches. Reads, and any
/// cache in front of them, belong to the store itself. Until a batch is
/// handed out, `updates` records, oldest first, what is pending for each key,
/// so that reads can see it.
pub struct LStore {
    pub batch_size: usize,
    pub batch: Vec<LWrite>,
    pub updates: Vec<(Vec<u8>, LUpdate)>,
    pub count: usize,
}

/// A copy of a byte slice.
fn bytes_of(b: &[u8]) -> (r: Vec<u8>)
    ensures
        r@ == b@,
{
    vstd::slice::slice_to_vec(b)
}

impl LStore {
    /// An empty store buffer of 100,000 writes per batch.
    pub fn new() -> (r: LStore)
        ensures
            r.batch_size == 100_000,
            r.batch@.len() == 0,
            r.updates@.len() == 0,
            r.count == 0,
    {
        LStore { batch_size: 100_000, batch: Vec::new(), updates: Vec::new(), count: 0 }
    }

    /// Queues `w`. When that fills the batch (`batch_size` writes, a size of 0
    /// meaning no limit), hands the whole batch out to be written and forgets
    /// the pending updates; otherwise records the update.
    fn push_write(&mut self, w: LWrite, u: (Vec<u8>, LUpdate)) -> (r: Option<Vec<LWrite>>)
        requires
            old(self).count < usize::MAX,
            update_of(w@) == updates_view(seq![u])[0],
        ensures
            final(self).batch_size == old(self).batch_size,
            final(self).count == old(self).count + 1,
            ({
                let full = old(self).batch_size > 0 && old(self).batch@.len() + 1 >= old(self).batch_size;
                if full {
                    r matches Some(b) && writes_view(b@) == writes_view(old(self).batch@).push(w@)
                        && final(self).batch@.len() == 0 && final(self).updates@.len() == 0
                } else {
                    r is None && writes_view(final(self).batch@) == writes_view(old(self).batch@).push(w@)
                        && updates_view(final(self).updates@) == updates_view(old(self).updates@).push(update_of(w@))
                }
            }),
    {
        let ghost wv = w@;
        let ghost b0 = self.batch@;
        let ghost u0 = self.updates@;
        self.batch.push(w);
        assert(writes_view(self.batch@) =~= writes_view(b0).push(wv));
        self.count = self.count + 1;
        if self.batch_size > 0 && self.batch.len() >= self.batch_size {
            let mut out: Vec<LWrite> = Vec::new();
            std::mem::swap(&mut out, &mut self.batch);
            self.updates.clear();
            Some(out)
        } else {
            self.updates.push(u);
            proof {
                assert(updates_view(seq![u])[0] == update_of(wv));
                assert(updates_view(self.updates@) =~= updates_view(u0).push(update_of(wv)));
            }
            None
        }
    }

    /// Queues the put of `value` under `key`; see `push_write` for when the
    /// batch is handed out.
    pub fn put(&mut self, key: &[u8], value: &[u8]) -> (r: Option<Vec<LWrite>>)
        requires
            old(self).count < usize::MAX,
        ensures
            final(self).batch_size == old(self).batch_size,
            final(self).count == old(self).count + 1,
            ({
                let w = LWriteView::Put(key@, value@);
                let full = old(self).batch_size > 0 && old(self).batch@.len() + 1 >= old(self).batch_size;
                if full {
                    r matches Some(b) && writes_view(b@) == writes_view(old(self).batch@).push(w)
                        && final(self).batch@.len() == 0 && final(self).updates@.len() == 0
                } else {
                    r is None && writes_view(final(self).batch@) == writes_view(old(self).batch@).push(w)
                        && updates_view(final(self).updates@) == updates_view(old(self).updates@).push(
                        (key@, Some(value@)),
                    )
                }
            }),
    {
        let w = LWrite::Put((bytes_of(key), bytes_of(value)));
        let u = (bytes_of(key), LUpdate::Put(bytes_of(value)));
        self.push_write(w, u)
    }

    /// Queues the delete of `key`; see `push_write` for when the batch is
    /// handed out.
    pub fn del(&mut self, key: &[u8]) -> (r: Option<Vec<LWrite>>)
        requires
            old(self).count < usize::MAX,
        ensures
            final(self).batch_size == old(self).batch_size,
            final(self).count == old(self).count + 1,
            ({
                let w = LWriteView::Del(key@);
                let full = old(self).batch_size > 0 && old(self).batch@.len() + 1 >= old(self).batch_size;
                if full {
                    r matches Some(b) && writes_view(b@) == writes_view(old(self).batch@).push(w)
                        && final(self).batch@.len() == 0 && final(self).updates@.len() == 0
                } else {
                    r is None && writes_view(final(self).batch@) == writes_view(old(self).batch@).push(w)
                        && updates_view(final(self).updates@) == updates_view(old(self).updates@).push(
                        (key@, None),
                    )
                }
            }),
    {
        let w = LWrite::Del(bytes_of(key));
        let u = (bytes_of(key), LUpdate::Del());
        self.push_write(w, u)
    }

    /// Hands out every pending write, to be written and made durable, and
    /// forgets the pending updates.
    pub fn sync(&mut self) -> (r: Vec<LWrite>)
        ensures
            writes_view(r@) == writes_view(old(self).batch@),
            final(self).batch@.len() == 0,
            final(self).updates@.len() == 0,
            final(self).count == old(self).count,
            final(self).batch_size == old(self).batch_size,
    {
        let mut out: Vec<LWrite> = Vec::new();
        std::mem::swap(&mut out, &mut self.batch);
        self.updates.clear();
        out
    }
}

} // verus!

use vstd::prelude::*;
use vstd::string::{StrSliceExecFns, StringExecFns};

verus! {

/// Where a stage stands.
#[derive(Debug, Clone, Copy, PartialEq, Eq, Structural)]
pub enum Stage {
    Uninitialized,
    Running,
    Ended,
}

/// `n` elements over `ms` milliseconds, per second.
fn per_second(n: u64, ms: u64) -> (r: u128)
    requires
        ms > 0,
    ensures
        r == (n as int) * 1000 / (ms as int),
{
    (n as u128) * 1000 / (ms as u128)
}

/// `msg` in front of `errors`, keeping at most `size`.
pub open spec fn pushed(errors: Seq<String>, msg: String, size: usize) -> Seq<String> {
    seq![msg].add(errors).take(
        if errors.len() + 1 <= size {
            (errors.len() + 1) as int
        } else {
            size as int
        },
    )
}

/// Counters of one stage. Times are milliseconds on a clock that the caller
/// reads.
pub struct Info {
    pub label: String,
    pub start: Option<u64>,
    pub end: Option<u64>,
    /// Newest first: milliseconds since the start and the count then.
    pub samples: Vec<(u64, u64)>,
    pub count: u64,
    pub sample_size: usize,
    /// Newest first.
    pub errors: Vec<String>,
    pub error_size: usize,
}

impl Info {
    /// The stage that the recorded times give.
    pub open spec fn stage(&self) -> Stage {
        if self.start is None {
            Stage::Uninitialized
        } else if self.end is None {
            Stage::Running
        } else {
            Stage::Ended
        }
    }

    /// The stage that the recorded times give.
    pub fn current_stage(&self) -> (r: Stage)
        ensures
            r == self.stage(),
    {
        if self.start.is_none() {
            Stage::Uninitialized
        } else if self.end.is_none() {
            Stage::Running
        } else {
            Stage::Ended
        }
    }

    /// Elements per second: over the whole stage once it ended; else over the
    /// span between the newest and oldest sample; else, when the samples span
    /// no time, since the start at time `now`. `None` when there is nothing to
    /// divide by.
    pub open spec fn rate_spec(&self, now: u64) -> Option<int> {
        match (self.start, self.end) {
            (Some(s), Some(e)) => if e > s {
                Some((self.count as int) * 1000 / ((e - s) as int))
            } else {
                None
            },
            _ => if self.samples@.len() == 0 {
                None
            } else {
                let first = self.samples@[0];
                let last = self.samples@.last();
                if first.0 <= last.0 {
                    match self.start {
                        Some(s) => if now > s {
                            Some((self.count as int) * 1000 / ((now - s) as int))
                        } else {
                            None
                        },
                        None => None,
                    }
                } else if first.1 >= last.1 {
                    Some(((first.1 - last.1) as int) * 1000 / ((first.0 - last.0) as int))
                } else {
                    Some(0)
                }
            },
        }
    }

    /// Elements per second, as `rate_spec` says.
    pub fn rate(&self, now: u64) -> (r: Option<u128>)
        ensures
            match self.rate_spec(now) {
                Some(x) => r == Some(x as u128),
                None => r is None,
            },
    {
        match (self.start, self.end) {
            (Some(s), Some(e)) => {
                if e > s {
                    return Some(per_second(self.count, e - s));
                }
                return None;
            },
            _ => {},
        }
        if self.samples.len() == 0 {
            return None;
        }
        let first = self.samples[0];
        let last = self.samples[self.samples.len() - 1];
        if first.0 <= last.0 {
            match self.start {
                Some(s) => {
                    if now > s {
                        Some(per_second(self.count, now - s))
                    } else {
                        None
                    }
                },
                None => None,
            }
        } else if first.1 >= last.1 {
            Some(per_second(first.1 - last.1, first.0 - last.0))
        } else {
            Some(0)
        }
    }

    /// An end is only recorded after a start.
    pub open spec fn wf(&self) -> bool {
        &&& (self.end is Some ==> self.start is Some)
        &&& self.samples@.len() <= self.sample_size
        &&& self.errors@.len() <= self.error_size
    }

    /// A stage not yet started, keeping 20 samples and 10 errors.
    pub fn new(label: &str) -> (r: Info)
        ensures
            r.wf(),
            r.label@ == label@,
            r.stage() == Stage::Uninitialized,
            r.count == 0,
            r.samples@.len() == 0,
            r.errors@.len() == 0,
            r.sample_size == 20,
            r.error_size == 10,
    {
        Info {
            label: String::from_str(label),
            start: None,
            end: None,
            samples: Vec::new(),
            count: 0,
            sample_size: 20,
            errors: Vec::new(),
            error_size: 10,
        }
    }

    /// `b` is `a` with nothing changed.
    pub open spec fn unchanged(a: Info, b: Info) -> bool {
        &&& b.label@ == a.label@
        &&& b.start == a.start
        &&& b.end == a.end
        &&& b.samples@ == a.samples@
        &&& b.count == a.count
        &&& b.sample_size == a.sample_size
        &&& b.errors@ == a.errors@
        &&& b.error_size == a.error_size
    }

    /// `b` is `a` after `add(x)`: the count grows by `x` on a running stage.
    pub open spec fn added(a: Info, b: Info, x: nat) -> bool {
        &&& b.label@ == a.label@
        &&& b.start == a.start
        &&& b.end == a.end
        &&& b.samples@ == a.samples@
        &&& b.count == if a.stage() == Stage::Running {
            a.count + x
        } else {
            a.count as int
        }
        &&& b.sample_size == a.sample_size
        &&& b.errors@ == a.errors@
        &&& b.error_size == a.error_size
    }

    /// `b` is `a` after `push_err(msg)`.
    pub open spec fn errored(a: Info, b: Info, msg: String) -> bool {
        &&& b.label@ == a.label@
        &&& b.start == a.start
        &&& b.end == a.end
        &&& b.samples@ == a.samples@
        &&& b.count == a.count
        &&& b.sample_size == a.sample_size
        &&& b.errors@ == pushed(a.errors@, msg, a.error_size)
        &&& b.error_size == a.error_size
    }

    /// `b` is `a` after `start(now)`: a stage not yet started starts at `now`.
    pub open spec fn started(a: Info, b: Info, now: u64) -> bool {
        &&& b.label@ == a.label@
        &&& b.start == if a.start is None {
            Some(now)
        } else {
            a.start
        }
        &&& b.end == a.end
        &&& b.samples@ == a.samples@
        &&& b.count == a.count
        &&& b.sample_size == a.sample_size
        &&& b.errors@ == a.errors@
        &&& b.error_size == a.error_size
    }

    /// `b` is `a` after `end(now)`: a running stage ends at `now`, or at its
    /// start when `now` is earlier.
    pub open spec fn ended(a: Info, b: Info, now: u64) -> bool {
        &&& b.label@ == a.label@
        &&& b.start == a.start
        &&& b.end == if a.stage() == Stage::Running {
            if now >= a.start->Some_0 {
                Some(now)
            } else {
                a.start
            }
        } else {
            a.end
        }
        &&& b.samples@ == a.samples@
        &&& b.count == a.count
        &&& b.sample_size == a.sample_size
        &&& b.errors@ == a.errors@
        &&& b.error_size == a.error_size
    }

    /// `b` is `a` after `tick(now)`: a running stage gets a sample, newest
    /// first, of the time since its start and its count, keeping at most
    /// `sample_size` samples.
    pub open spec fn ticked(a: Info, b: Info, now: u64) -> bool {
        &&& b.label@ == a.label@
        &&& b.start == a.start
        &&& b.end == a.end
        &&& b.samples@ == if a.stage() == Stage::Running {
            seq![
                (
                    if now >= a.start->Some_0 {
                        (now - a.start->Some_0) as u64
                    } else {
                        0u64
                    },
                    a.count,
                ),
            ].add(a.samples@).take(
                if a.samples@.len() + 1 <= a.sample_size {
                    (a.samples@.len() + 1) as int
                } else {
                    a.sample_size as int
                },
            )
        } else {
            a.samples@
        }
        &&& b.count == a.count
        &&& b.sample_size == a.sample_size
        &&& b.errors@ == a.errors@
        &&& b.error_size == a.error_size
    }

    /// Adds `x` to the count of a running stage; does nothing otherwise.
    pub fn add(&mut self, x: usize)
        requires
            old(self).wf(),
            old(self).count + x <= u64::MAX,
        ensures
            final(self).wf(),
            Info::added(*old(self), *final(self), x as nat),
    {
        if self.start.is_some() && self.end.is_none() {
            self.count = self.count + x as u64;
        }
    }

    /// Records an error message, newest first, keeping at most `error_size`.
    pub fn push_err(&mut self, msg: String)
        requires
            old(self).wf(),
        ensures
            final(self).wf(),
            Info::errored(*old(self), *final(self), msg),
    {
        self.errors.insert(0, msg);
        let n = self.error_size;
        if self.errors.len() > n {
            self.errors.truncate(n);
        }
        proof {
            assert(self.errors@ =~= pushed(old(self).errors@, msg, old(self).error_size));
        }
    }

    /// Moves a stage that was not started to running, at time `now`.
    pub fn start(&mut self, now: u64)
        requires
            old(self).wf(),
        ensures
            final(self).wf(),
            Info::started(*old(self), *final(self), now),
    {
        if self.start.is_none() {
            self.start = Some(now);
        }
    }

    /// Moves a running stage to ended, at time `now`, or at its start when
    /// `now` is earlier.
    pub fn end(&mut self, now: u64)
        requires
            old(self).wf(),
        ensures
            final(self).wf(),
            Info::ended(*old(self), *final(self), now),
    {
        match (self.start, self.end) {
            (Some(s), None) => {
                self.end = Some(if now >= s { now } else { s });
            },
            _ => {},
        }
    }

    /// On a running stage, records a sample of the count at time `now`,
    /// newest first, keeping at most `sample_size`; does nothing otherwise.
    pub fn tick(&mut self, now: u64)
        requires
            old(self).wf(),
        ensures
            final(self).wf(),
            Info::ticked(*old(self), *final(self), now),
    {
        if self.end.is_some() {
            return;
        }
        match self.start {
            None => {},
            Some(s) => {
                let elapsed = if now >= s {
                    now - s
                } else {
                    0
                };
                let ghost before = self.samples@;
                self.samples.insert(0, (elapsed, self.count));
                let n = self.sample_size;
                if self.samples.len() > n {
                    self.samples.truncate(n);
                }
                proof {
                    let l = if before.len() + 1 <= self.sample_size {
                        (before.len() + 1) as int
                    } else {
                        self.sample_size as int
                    };
                    assert(self.samples@ =~= seq![(elapsed, old(self).count)].add(before).take(l));
                }
            },
        }
    }
}

/// `b` is `a` with the counter at `at`, if any, changed as `f` says and every
/// other one unchanged.
pub open spec fn changed_at(a: Seq<Info>, b: Seq<Info>, at: Option<int>, f: spec_fn(Info, Info) -> bool) -> bool {
    &&& a.len() == b.len()
    &&& forall|i: int| 0 <= i < a.len() ==> if at == Some(i) {
        f(a[i], #[trigger] b[i])
    } else {
        Info::unchanged(a[i], b[i])
    }
}

/// Every counter of `b` is the one of `a` ticked at `now`.
pub open spec fn all_ticked(a: Seq<Info>, b: Seq<Info>, now: u64) -> bool {
    &&& a.len() == b.len()
    &&& forall|i: int| 0 <= i < a.len() ==> Info::ticked(a[i], #[trigger] b[i], now)
}

proof fn lemma_changed_at(a: Seq<Info>, i: int, x: Info, f: spec_fn(Info, Info) -> bool)
    requires
        0 <= i < a.len(),
        f(a[i], x),
    ensures
        changed_at(a, a.update(i, x), Some(i), f),
{
}

proof fn lemma_changed_none(a: Seq<Info>, f: spec_fn(Info, Info) -> bool)
    ensures
        changed_at(a, a, None, f),
{
}

/// Whether two labels are the same text.
fn same_label(a: &str, b: &str) -> (r: bool)
    ensures
        r == (a@ == b@),
{
    let n = a.unicode_len();
    if n != b.unicode_len() {
        return false;
    }
    let mut i: usize = 0;
    while i < n
        invariant
            n == a@.len(),
            n == b@.len(),
            i <= n,
            forall|j: int| 0 <= j < i ==> a@[j] == b@[j],
        decreases n - i,
    {
        if a.get_char(i) != b.get_char(i) {
            return false;
        }
        i = i + 1;
    }
    assert(a@ =~= b@);
    true
}

/// The counters of every stage of a run, in the order the stages were given.
pub struct Progress {
    pub stages: Vec<String>,
    pub info: Vec<Info>,
}

/// The first index of `label` among `labels`.
pub open spec fn label_index(labels: Seq<Seq<char>>, label: Seq<char>) -> Option<int>
    decreases labels.len(),
{
    if labels.len() == 0 {
        None
    } else if labels.last() == label {
        match label_index(labels.drop_last(), label) {
            Some(i) => Some(i),
            None => Some(labels.len() - 1),
        }
    } else {
        label_index(labels.drop_last(), label)
    }
}

impl Progress {
    /// The labels of the stages.
    pub open spec fn labels(&self) -> Seq<Seq<char>> {
        self.stages@.map_values(|s: String| s@)
    }

    /// One counter per stage, under the stage's label.
    pub open spec fn wf(&self) -> bool {
        &&& self.stages@.len() == self.info@.len()
        &&& forall|i: int| 0 <= i < self.info@.len() ==> #[trigger] self.info@[i].wf()
            && self.info@[i].label@ == self.stages@[i]@
    }

    /// The counter of the stage named `label`.
    fn find(&self, label: &str) -> (r: Option<usize>)
        requires
            self.wf(),
        ensures
            match r {
                Some(i) => label_index(self.labels(), label@) == Some(i as int) && i
                    < self.info@.len(),
                None => label_index(self.labels(), label@) is None,
            },
    {
        let mut i: usize = 0;
        while i < self.stages.len()
            invariant
                i <= self.stages@.len(),
                self.stages@.len() == self.info@.len(),
                label_index(self.labels().take(i as int), label@) is None,
            decreases self.stages@.len() - i,
        {
            proof {
                lemma_label_index_prefix(self.labels(), label@, i as int);
            }
            if same_label(self.stages[i].as_str(), label) {
                proof {
                    lemma_label_index_first(self.labels(), label@, i as int);
                }
                return Some(i);
            }
            proof {
                assert(self.labels().take(i as int + 1).drop_last() =~= self.labels().take(i as int));
            }
            i = i + 1;
        }
        assert(self.labels().take(i as int) =~= self.labels());
        None
    }

    /// Counters for the given stages, none started.
    pub fn new(stages: &[&str]) -> (r: Progress)
        ensures
            r.wf(),
            r.stages@.len() == stages@.len(),
            forall|i: int| 0 <= i < stages@.len() ==> (#[trigger] r.stages@[i])@ == stages@[i]@
                && r.info@[i].stage() == Stage::Uninitialized && r.info@[i].count == 0,
    {
        let mut names: Vec<String> = Vec::new();
        let mut info: Vec<Info> = Vec::new();
        let mut i: usize = 0;
        while i < stages.len()
            invariant
                i <= stages@.len(),
                names@.len() == i,
                info@.len() == i,
                forall|j: int| 0 <= j < i ==> #[trigger] names@[j]@ == stages@[j]@,
                forall|j: int| 0 <= j < i ==> (#[trigger] info@[j]).wf() && info@[j].label@ == stages@[j]@
                    && info@[j].stage() == Stage::Uninitialized && info@[j].count == 0,
            decreases stages@.len() - i,
        {
            let ghost n0 = names@;
            let ghost i0 = info@;
            names.push(String::from_str(stages[i]));
            info.push(Info::new(stages[i]));
            i = i + 1;
            proof {
                assert forall|j: int| 0 <= j < i implies #[trigger] names@[j]@ == stages@[j]@ by {
                    if j < i - 1 {
                        assert(names@[j] == n0[j]);
                    }
                }
                assert forall|j: int| 0 <= j < i implies (#[trigger] info@[j]).wf() && info@[j].label@
                    == stages@[j]@ && info@[j].stage() == Stage::Uninitialized && info@[j].count == 0 by {
                    if j < i - 1 {
                        assert(info@[j] == i0[j]);
                        assert(i0[j].wf());
                    } else {
                        assert(info@[j] == info@[i - 1]);
                    }
                }
            }
        }
        let r = Progress { stages: names, info };
        assert forall|i: int| 0 <= i < r.info@.len() implies #[trigger] r.info@[i].wf()
            && r.info@[i].label@ == r.stages@[i]@ by {
            assert(names@[i]@ == stages@[i]@);
            assert(info@[i].wf());
        }
        assert forall|i: int| 0 <= i < stages@.len() implies (#[trigger] r.stages@[i])@ == stages@[i]@
            && r.info@[i].stage() == Stage::Uninitialized && r.info@[i].count == 0 by {
            assert(names@[i]@ == stages@[i]@);
            assert(info@[i].wf());
        }
        r
    }

    /// Adds `x` to the count of the stage named `label`, if it is running.
    pub fn add(&mut self, label: &str, x: usize)
        requires
            old(self).wf(),
            label_index(old(self).labels(), label@) matches Some(i) ==> old(self).info@[i].count + x <= u64::MAX,
        ensures
            final(self).wf(),
            final(self).stages@ == old(self).stages@,
            changed_at(old(self).info@, final(self).info@, label_index(old(self).labels(), label@), |a: Info, b: Info| Info::added(a, b, x as nat)),
    {
        match self.find(label) {
            None => {
                proof {
                    lemma_changed_none(self.info@, |a: Info, b: Info| Info::added(a, b, x as nat));
                }
            },
            Some(i) => {
                let mut info = self.info.remove(i);
                proof {
                    assert(info == old(self).info@[i as int]);
                    assert(info.wf());
                }
                info.add(x);
                let ghost after = info;
                self.info.insert(i, info);
                proof {
                    assert(self.info@ =~= old(self).info@.update(i as int, after));
                    lemma_changed_at(old(self).info@, i as int, after, |a: Info, b: Info| Info::added(a, b, x as nat));
                    assert forall|j: int| 0 <= j < self.info@.len() implies #[trigger] self.info@[j].wf() && self.info@[j].label@ == self.stages@[j]@ by {
                        if j != i {
                            assert(self.info@[j] == old(self).info@[j]);
                        }
                    }
                    assert(self.wf());
                }
            },
        }
    }

    /// Records an error message on the stage named `label`, if there is one.
    pub fn push_err(&mut self, label: &str, msg: String)
        requires
            old(self).wf(),
        ensures
            final(self).wf(),
            final(self).stages@ == old(self).stages@,
            changed_at(old(self).info@, final(self).info@, label_index(old(self).labels(), label@), |a: Info, b: Info| Info::errored(a, b, msg)),
    {
        match self.find(label) {
            None => {
                proof {
                    lemma_changed_none(self.info@, |a: Info, b: Info| Info::errored(a, b, msg));
                }
            },
            Some(i) => {
                let mut info = self.info.remove(i);
                proof {
                    assert(info == old(self).info@[i as int]);
                    assert(info.wf());
                }
                info.push_err(msg);
                let ghost after = info;
                self.info.insert(i, info);
                proof {
                    assert(self.info@ =~= old(self).info@.update(i as int, after));
                    lemma_changed_at(old(self).info@, i as int, after, |a: Info, b: Info| Info::errored(a, b, msg));
                    assert forall|j: int| 0 <= j < self.info@.len() implies #[trigger] self.info@[j].wf() && self.info@[j].label@ == self.stages@[j]@ by {
                        if j != i {
                            assert(self.info@[j] == old(self).info@[j]);
                        }
                    }
                    assert(self.wf());
                }
            },
        }
    }

    /// Samples the count of every running stage at time `now`.
    pub fn tick(&mut self, now: u64)
        requires
            old(self).wf(),
        ensures
            final(self).wf(),
            final(self).stages@ == old(self).stages@,
            all_ticked(old(self).info@, final(self).info@, now),
    {
        let n = self.info.len();
        let mut i: usize = 0;
        while i < n
            invariant
                n == self.info@.len(),
                n == old(self).info@.len(),
                i <= n,
                self.wf(),
                self.stages@ == old(self).stages@,
                forall|j: int| 0 <= j < i ==> Info::ticked(old(self).info@[j], #[trigger] self.info@[j], now),
                forall|j: int| i <= j < n ==> #[trigger] self.info@[j] == old(self).info@[j],
            decreases n - i,
        {
            let ghost prev = self.info@;
            let mut info = self.info.remove(i);
            proof {
                assert(info == prev[i as int]);
                assert(info.wf());
            }
            info.tick(now);
            let ghost after = info;
            self.info.insert(i, info);
            proof {
                assert(self.info@ =~= prev.update(i as int, after));
                assert forall|j: int| 0 <= j < self.info@.len() implies #[trigger] self.info@[j].wf() && self.info@[j].label@ == self.stages@[j]@ by {
                    if j != i {
                        assert(self.info@[j] == prev[j]);
                        assert(prev[j].wf());
                    } else {
                        assert(prev[j].wf());
                    }
                }
                assert forall|j: int| 0 <= j < i + 1 implies Info::ticked(old(self).info@[j], #[trigger] self.info@[j], now) by {
                    if j < i {
                        assert(self.info@[j] == prev[j]);
                    } else {
                        assert(prev[j] == old(self).info@[j]);
                    }
                }
                assert forall|j: int| i + 1 <= j < n implies #[trigger] self.info@[j] == old(self).info@[j] by {
                    assert(self.info@[j] == prev[j]);
                }
            }
            i = i + 1;
        }
        assert(all_ticked(old(self).info@, self.info@, now));
    }

    /// Starts the stage named `label` at time `now`.
    pub fn start(&mut self, label: &str, now: u64)
        requires
            old(self).wf(),
            label_index(old(self).labels(), label@) is Some,
        ensures
            final(self).wf(),
            final(self).stages@ == old(self).stages@,
            changed_at(old(self).info@, final(self).info@, label_index(old(self).labels(), label@), |a: Info, b: Info| Info::started(a, b, now)),
    {
        match self.find(label) {
            None => {
                proof {
                    lemma_changed_none(self.info@, |a: Info, b: Info| Info::started(a, b, now));
                }
            },
            Some(i) => {
                let mut info = self.info.remove(i);
                proof {
                    assert(info == old(self).info@[i as int]);
                    assert(info.wf());
                }
                info.start(now);
                let ghost after = info;
                self.info.insert(i, info);
                proof {
                    assert(self.info@ =~= old(self).info@.update(i as int, after));
                    lemma_changed_at(old(self).info@, i as int, after, |a: Info, b: Info| Info::started(a, b, now));
                    assert forall|j: int| 0 <= j < self.info@.len() implies #[trigger] self.info@[j].wf() && self.info@[j].label@ == self.stages@[j]@ by {
                        if j != i {
                            assert(self.info@[j] == old(self).info@[j]);
                        }
                    }
                    assert(self.wf());
                }
            },
        }
    }

    /// Ends the stage named `label` at time `now`.
    pub fn end(&mut self, label: &str, now: u64)
        requires
            old(self).wf(),
            label_index(old(self).labels(), label@) is Some,
        ensures
            final(self).wf(),
            final(self).stages@ == old(self).stages@,
            changed_at(old(self).info@, final(self).info@, label_index(old(self).labels(), label@), |a: Info, b: Info| Info::ended(a, b, now)),
    {
        match self.find(label) {
            None => {
                proof {
                    lemma_changed_none(self.info@, |a: Info, b: Info| Info::ended(a, b, now));
                }
            },
            Some(i) => {
                let mut info = self.info.remove(i);
                proof {
                    assert(info == old(self).info@[i as int]);
                    assert(info.wf());
                }
                info.end(now);
                let ghost after = info;
                self.info.insert(i, info);
                proof {
                    assert(self.info@ =~= old(self).info@.update(i as int, after));
                    lemma_changed_at(old(self).info@, i as int, after, |a: Info, b: Info| Info::ended(a, b, now));
                    assert forall|j: int| 0 <= j < self.info@.len() implies #[trigger] self.info@[j].wf() && self.info@[j].label@ == self.stages@[j]@ by {
                        if j != i {
                            assert(self.info@[j] == old(self).info@[j]);
                        }
                    }
                    assert(self.wf());
                }
            },
        }
    }

}

proof fn lemma_label_index_prefix(labels: Seq<Seq<char>>, label: Seq<char>, i: int)
    requires
        0 <= i < labels.len(),
        label_index(labels.take(i), label) is None,
    ensures
        labels.take(i + 1).drop_last() == labels.take(i),
        labels.take(i + 1).last() == labels[i],
{
    assert(labels.take(i + 1).drop_last() =~= labels.take(i));
}

proof fn lemma_label_index_first(labels: Seq<Seq<char>>, label: Seq<char>, i: int)
    requires
        0 <= i < labels.len(),
        label_index(labels.take(i), label) is None,
        labels[i] == label,
    ensures
        label_index(labels, label) == Some(i),
    decreases labels.len(),
{
    if i == labels.len() - 1 {
        assert(labels.drop_last() =~= labels.take(i));
    } else {
        assert(labels.drop_last().take(i) =~= labels.take(i));
        lemma_label_index_first(labels.drop_last(), label, i);
    }
}

/// The character of a decimal digit.
pub open spec fn digit_char(d: nat) -> char {
    if d == 0 { '0' } else if d == 1 { '1' } else if d == 2 { '2' } else if d == 3 { '3' } else if d == 4 {
        '4'
    } else if d == 5 { '5' } else if d == 6 { '6' } else if d == 7 { '7' } else if d == 8 { '8' } else {
        '9'
    }
}

/// The decimal digits of `n`.
pub open spec fn decimal(n: nat) -> Seq<char>
    decreases n,
{
    if n < 10 {
        seq![digit_char(n)]
    } else {
        decimal(n / 10).push(digit_char(n % 10))
    }
}

/// The decimal digits of `n`, at least two.
pub open spec fn two_digits(n: nat) -> Seq<char> {
    if n < 10 {
        seq!['0'] + decimal(n)
    } else {
        decimal(n)
    }
}

/// `HH:MM:SS` for a duration of `t` seconds; hours take more digits when
/// needed.
pub open spec fn hms_spec(t: nat) -> Seq<char> {
    two_digits(t / 3600) + seq![':'] + two_digits((t / 60) % 60) + seq![':'] + two_digits(t % 60)
}

fn digit_str(d: u64) -> (r: &'static str)
    requires
        d < 10,
    ensures
        r@ == seq![digit_char(d as nat)],
{
    proof {
        reveal_strlit("0");
        reveal_strlit("1");
        reveal_strlit("2");
        reveal_strlit("3");
        reveal_strlit("4");
        reveal_strlit("5");
        reveal_strlit("6");
        reveal_strlit("7");
        reveal_strlit("8");
        reveal_strlit("9");
    }
    let r = if d == 0 { "0" } else if d == 1 { "1" } else if d == 2 { "2" } else if d == 3 { "3" } else if d == 4 {
        "4"
    } else if d == 5 { "5" } else if d == 6 { "6" } else if d == 7 { "7" } else if d == 8 { "8" } else {
        "9"
    };
    assert(r@ =~= seq![digit_char(d as nat)]);
    r
}

fn push_decimal(s: &mut String, n: u64)
    ensures
        final(s)@ == old(s)@ + decimal(n as nat),
    decreases n,
{
    if n >= 10 {
        push_decimal(s, n / 10);
    }
    s.append(digit_str(n % 10));
    if n >= 10 {
        assert(old(s)@ + decimal((n / 10) as nat) + seq![digit_char((n % 10) as nat)] =~= old(s)@ + decimal(n as nat));
    } else {
        assert(old(s)@ + seq![digit_char((n % 10) as nat)] =~= old(s)@ + decimal(n as nat));
    }
}

fn push_two_digits(s: &mut String, n: u64)
    ensures
        final(s)@ == old(s)@ + two_digits(n as nat),
{
    proof {
        reveal_strlit("0");
    }
    if n < 10 {
        s.append("0");
    }
    push_decimal(s, n);
    if n < 10 {
        assert(old(s)@ + seq!['0'] + decimal(n as nat) =~= old(s)@ + two_digits(n as nat));
    }
}

/// A duration in seconds as `HH:MM:SS`, or `--:--:--` when there is none.
pub fn hms(oi: Option<u64>) -> (r: String)
    ensures
        match oi {
            Some(t) => r@ == hms_spec(t as nat),
            None => r@ == seq!['-', '-', ':', '-', '-', ':', '-', '-'],
        },
{
    proof {
        reveal_strlit("--:--:--");
        reveal_strlit(":");
    }
    match oi {
        None => {
            let r = String::from_str("--:--:--");
            assert(r@ =~= seq!['-', '-', ':', '-', '-', ':', '-', '-']);
            r
        },
        Some(t) => {
            let mut s = String::new();
            assert(s@ =~= Seq::<char>::empty()) by {
                reveal_strlit("");
            }
            push_two_digits(&mut s, t / 3600);
            s.append(":");
            push_two_digits(&mut s, (t / 60) % 60);
            s.append(":");
            push_two_digits(&mut s, t % 60);
            assert(s@ =~= hms_spec(t as nat));
            s
        },
    }
}

} // verus!

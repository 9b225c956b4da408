use vstd::prelude::*;

verus! {

/// Running totals handed to an observer.
#[derive(Debug, Clone, Copy, PartialEq, Eq, Structural)]
pub struct AggregateProgress {
    pub bytes_done: u64,
    pub bytes_total: u64,
}

/// One event of an ingest or a download, as its producers report it.
#[derive(Debug, Clone)]
pub enum ProgressEvent {
    /// The peer was reached.
    Connected,
    /// The remote manifest lists `child_count` blobs.
    ManifestFound { child_count: u64 },
    /// An item was discovered; its name is only for display.
    Found { id: u64, name: String },
    /// An item's size became known.
    SizeKnown { id: u64, size: u64 },
    /// An item has been processed up to `offset` bytes.
    BytesAdvanced { id: u64, offset: u64 },
    /// An item is complete.
    ItemDone { id: u64 },
    /// Every item is complete.
    AllDone,
    /// The producers went away without a word.
    EndOfStream,
    /// The transfer was aborted for the given reason.
    Aborted(String),
}

/// What the aggregator tells its observer after one event.
#[derive(Debug, PartialEq, Eq)]
pub enum ProgressStep {
    /// Nothing to report.
    Quiet,
    /// New running totals.
    Update(AggregateProgress),
    /// The final totals; the session is over.
    Finished(AggregateProgress),
    /// The session failed for the given reason.
    Failed(String),
}

/// The bookkeeping of one item: its latest reported size (0 until one is
/// reported), the highest offset reported for it, and whether it is done.
#[derive(Debug, Clone, Copy, PartialEq, Eq, Structural)]
pub struct Slot {
    pub id: u64,
    pub size: u64,
    pub offset: u64,
    pub done: bool,
}

pub enum SlotField {
    Size,
    Done,
}

pub open spec fn field_value(x: Slot, f: SlotField) -> int {
    match f {
        SlotField::Size => x.size as int,
        SlotField::Done => if x.done {
            1
        } else {
            0
        },
    }
}

pub open spec fn sum_field(s: Seq<Slot>, f: SlotField) -> int
    decreases s.len(),
{
    if s.len() == 0 {
        0
    } else {
        sum_field(s.drop_last(), f) + field_value(s.last(), f)
    }
}

/// The state of an aggregator, as its contracts speak of it.
pub struct AggregatorModel {
    pub slots: Seq<Slot>,
    pub size_sum: u64,
    pub done_bytes: u64,
    pub preset_total: u64,
    pub expected_items: nat,
    pub done_items: nat,
    pub stopped: bool,
}

pub open spec fn ids_unique(s: Seq<Slot>) -> bool {
    forall|a: int, b: int| 0 <= a < s.len() && 0 <= b < s.len() && #[trigger] s[a].id == #[trigger] s[b].id ==> a == b
}

pub open spec fn model_wf(m: AggregatorModel) -> bool {
    &&& ids_unique(m.slots)
    &&& m.size_sum == sum_field(m.slots, SlotField::Size)
    &&& m.done_items == sum_field(m.slots, SlotField::Done)
}

pub open spec fn slot_index(s: Seq<Slot>, id: u64) -> Option<int> {
    if exists|i: int| 0 <= i < s.len() && #[trigger] s[i].id == id {
        Some(choose|i: int| 0 <= i < s.len() && #[trigger] s[i].id == id)
    } else {
        None
    }
}

/// The larger of the size announced before the transfer and the sum of
/// the latest size reported for each item.
pub open spec fn natural_total(m: AggregatorModel) -> u64 {
    if m.preset_total >= m.size_sum {
        m.preset_total
    } else {
        m.size_sum
    }
}

/// The reported total: the natural total, raised to the bytes done where
/// a producer reported more bytes than sizes.
pub open spec fn total_of(m: AggregatorModel) -> u64 {
    if natural_total(m) >= m.done_bytes {
        natural_total(m)
    } else {
        m.done_bytes
    }
}

pub open spec fn progress_of(m: AggregatorModel) -> AggregateProgress {
    AggregateProgress { bytes_done: m.done_bytes, bytes_total: total_of(m) }
}

/// `done` raised by `delta`, but never past `cap` (and never lowered).
pub open spec fn bumped(done: u64, delta: u64, cap: u64) -> u64 {
    if done >= cap {
        done
    } else if delta <= cap - done {
        (done + delta) as u64
    } else {
        cap
    }
}

/// A new item of the given size, clamped so that the sum of sizes fits.
pub open spec fn with_new_slot(m: AggregatorModel, id: u64, size: u64) -> AggregatorModel {
    let room = (u64::MAX - m.size_sum) as u64;
    let sz = if size <= room {
        size
    } else {
        room
    };
    AggregatorModel {
        slots: m.slots.push(Slot { id, size: sz, offset: 0, done: false }),
        size_sum: (m.size_sum + sz) as u64,
        ..m
    }
}

/// Item `i`'s size replaced by `size`, clamped so that the sum of sizes fits.
pub open spec fn resized(m: AggregatorModel, i: int, size: u64) -> AggregatorModel {
    let s = m.slots[i];
    let room = (u64::MAX - (m.size_sum - s.size)) as u64;
    let sz = if size <= room {
        size
    } else {
        room
    };
    AggregatorModel {
        slots: m.slots.update(i, Slot { size: sz, ..s }),
        size_sum: (m.size_sum - s.size + sz) as u64,
        ..m
    }
}

/// Item `i` reported at `offset`: the bytes past its last offset count as
/// done, up to the natural total; offsets never go back.
pub open spec fn advanced(m: AggregatorModel, i: int, offset: u64) -> AggregatorModel {
    let s = m.slots[i];
    let delta = if offset > s.offset {
        (offset - s.offset) as u64
    } else {
        0
    };
    let new_offset = if offset > s.offset {
        offset
    } else {
        s.offset
    };
    AggregatorModel {
        slots: m.slots.update(i, Slot { offset: new_offset, ..s }),
        done_bytes: bumped(m.done_bytes, delta, natural_total(m)),
        ..m
    }
}

/// Item `i` is complete; its bookkeeping takes no further events.
pub open spec fn completed(m: AggregatorModel, i: int) -> AggregatorModel {
    AggregatorModel {
        slots: m.slots.update(i, Slot { done: true, ..m.slots[i] }),
        done_items: m.done_items + 1,
        ..m
    }
}

/// Whether completing one more item completes the last expected one.
pub open spec fn is_last_item(m: AggregatorModel) -> bool {
    m.expected_items > 0 && m.done_items + 1 == m.expected_items
}

/// The bytes done forced up to the total.
pub open spec fn converged(m: AggregatorModel) -> AggregatorModel {
    AggregatorModel { done_bytes: total_of(m), ..m }
}

/// The effect of one event: the next state and what is reported.
pub open spec fn step_spec(m: AggregatorModel, ev: ProgressEvent) -> (AggregatorModel, ProgressStep) {
    if m.stopped {
        (m, ProgressStep::Quiet)
    } else {
        match ev {
            ProgressEvent::Connected => (m, ProgressStep::Update(progress_of(m))),
            ProgressEvent::ManifestFound { .. } => (m, ProgressStep::Quiet),
            ProgressEvent::Found { .. } => (m, ProgressStep::Quiet),
            ProgressEvent::SizeKnown { id, size } => {
                let n = match slot_index(m.slots, id) {
                    Some(i) => resized(m, i, size),
                    None => with_new_slot(m, id, size),
                };
                (n, ProgressStep::Update(progress_of(n)))
            },
            ProgressEvent::BytesAdvanced { id, offset } => match slot_index(m.slots, id) {
                Some(i) => if m.slots[i].done {
                    (m, ProgressStep::Quiet)
                } else {
                    let n = advanced(m, i, offset);
                    (n, ProgressStep::Update(progress_of(n)))
                },
                None => {
                    let n = advanced(with_new_slot(m, id, 0), m.slots.len() as int, offset);
                    (n, ProgressStep::Update(progress_of(n)))
                },
            },
            ProgressEvent::ItemDone { id } => match slot_index(m.slots, id) {
                Some(i) => if m.slots[i].done {
                    (m, ProgressStep::Quiet)
                } else if is_last_item(m) {
                    let n = converged(completed(m, i));
                    (n, ProgressStep::Update(progress_of(n)))
                } else {
                    (completed(m, i), ProgressStep::Quiet)
                },
                None => (m, ProgressStep::Quiet),
            },
            ProgressEvent::AllDone | ProgressEvent::EndOfStream => {
                let n = AggregatorModel { stopped: true, ..converged(m) };
                (n, ProgressStep::Finished(progress_of(n)))
            },
            ProgressEvent::Aborted(reason) => (
                AggregatorModel { stopped: true, ..m },
                ProgressStep::Failed(reason),
            ),
        }
    }
}

pub proof fn lemma_sum_update(s: Seq<Slot>, i: int, v: Slot, f: SlotField)
    requires
        0 <= i < s.len(),
    ensures
        sum_field(s.update(i, v), f) == sum_field(s, f) - field_value(s[i], f) + field_value(v, f),
    decreases s.len(),
{
    let u = s.update(i, v);
    if i == s.len() - 1 {
        assert(u.drop_last() =~= s.drop_last());
    } else {
        assert(u.drop_last() =~= s.drop_last().update(i, v));
        lemma_sum_update(s.drop_last(), i, v, f);
    }
}

pub proof fn lemma_field_le_sum(s: Seq<Slot>, i: int, f: SlotField)
    requires
        0 <= i < s.len(),
    ensures
        0 <= field_value(s[i], f) <= sum_field(s, f),
    decreases s.len(),
{
    lemma_sum_nonneg(s.drop_last(), f);
    if i < s.len() - 1 {
        assert(s.drop_last()[i] == s[i]);
        lemma_field_le_sum(s.drop_last(), i, f);
    }
}

pub proof fn lemma_sum_nonneg(s: Seq<Slot>, f: SlotField)
    ensures
        0 <= sum_field(s, f),
    decreases s.len(),
{
    if s.len() > 0 {
        lemma_sum_nonneg(s.drop_last(), f);
    }
}

pub proof fn lemma_slot_done_counted(s: Seq<Slot>, i: int)
    requires
        0 <= i < s.len(),
        !s[i].done,
    ensures
        sum_field(s, SlotField::Done) < s.len(),
    decreases s.len(),
{
    let p = s.drop_last();
    if i < s.len() - 1 {
        assert(p[i] == s[i]);
        lemma_slot_done_counted(p, i);
    } else {
        lemma_done_bounded(p);
    }
}

proof fn lemma_done_bounded(s: Seq<Slot>)
    ensures
        0 <= sum_field(s, SlotField::Done) <= s.len(),
    decreases s.len(),
{
    if s.len() > 0 {
        lemma_done_bounded(s.drop_last());
    }
}

proof fn lemma_update_keeps_ids(m: Seq<Slot>, i: int, v: Slot)
    requires
        0 <= i < m.len(),
        ids_unique(m),
        v.id == m[i].id,
    ensures
        ids_unique(m.update(i, v)),
{
    let n = m.update(i, v);
    assert forall|a: int| 0 <= a < n.len() implies #[trigger] n[a].id == m[a].id by {
        if a != i {
            assert(n[a] == m[a]);
        }
    }
    assert forall|a: int, b: int| 0 <= a < n.len() && 0 <= b < n.len() && #[trigger] n[a].id == #[trigger] n[b].id implies a == b by {
        assert(n[a].id == m[a].id);
        assert(n[b].id == m[b].id);
    }
}

proof fn lemma_push_keeps_ids(m: Seq<Slot>, x: Slot)
    requires
        ids_unique(m),
        slot_index(m, x.id) is None,
    ensures
        ids_unique(m.push(x)),
{
    let n = m.push(x);
    assert forall|a: int, b: int| 0 <= a < n.len() && 0 <= b < n.len() && #[trigger] n[a].id == #[trigger] n[b].id implies a == b by {
        if a < m.len() && b == m.len() {
            assert(m[a].id == x.id);
        }
        if b < m.len() && a == m.len() {
            assert(m[b].id == x.id);
        }
        if a < m.len() && b < m.len() {
            assert(n[a] == m[a] && n[b] == m[b]);
        }
    }
}

proof fn lemma_new_slot_wf(m: AggregatorModel, id: u64, size: u64)
    requires
        model_wf(m),
        slot_index(m.slots, id) is None,
    ensures
        model_wf(with_new_slot(m, id, size)),
{
    let n = with_new_slot(m, id, size);
    assert(n.slots.drop_last() =~= m.slots);
    lemma_push_keeps_ids(m.slots, n.slots.last());
}

proof fn lemma_advanced_wf(m: AggregatorModel, i: int, offset: u64)
    requires
        model_wf(m),
        0 <= i < m.slots.len(),
    ensures
        model_wf(advanced(m, i, offset)),
        m.done_bytes <= advanced(m, i, offset).done_bytes,
{
    let n = advanced(m, i, offset);
    let v = n.slots[i];
    assert(n.slots == m.slots.update(i, v));
    lemma_update_keeps_ids(m.slots, i, v);
    lemma_sum_update(m.slots, i, v, SlotField::Size);
    lemma_sum_update(m.slots, i, v, SlotField::Done);
}

/// Each step keeps the state well formed; the bytes done never go down and
/// never pass the reported total; what is reported is the new state's
/// totals. The final report shows the bytes done equal to the total, that
/// total being the one before the event, and after it nothing more is
/// reported.
pub proof fn lemma_step_monotone(m: AggregatorModel, ev: ProgressEvent)
    requires
        model_wf(m),
    ensures
        model_wf(step_spec(m, ev).0),
        m.done_bytes <= step_spec(m, ev).0.done_bytes,
        step_spec(m, ev).0.done_bytes <= total_of(step_spec(m, ev).0),
        m.stopped ==> step_spec(m, ev).1 is Quiet && step_spec(m, ev).0 == m,
        m.stopped ==> step_spec(m, ev).0.stopped,
        step_spec(m, ev).1 matches ProgressStep::Update(p) ==> p == progress_of(step_spec(m, ev).0),
        step_spec(m, ev).1 matches ProgressStep::Finished(p) ==> p == progress_of(step_spec(m, ev).0)
            && p.bytes_done == p.bytes_total && p.bytes_total == total_of(m) && !m.stopped
            && step_spec(m, ev).0.stopped,
{
    if !m.stopped {
        match ev {
            ProgressEvent::SizeKnown { id, size } => {
                match slot_index(m.slots, id) {
                    Some(i) => {
                        let n = resized(m, i, size);
                        let v = n.slots[i];
                        assert(n.slots == m.slots.update(i, v));
                        lemma_field_le_sum(m.slots, i, SlotField::Size);
                        lemma_update_keeps_ids(m.slots, i, v);
                        lemma_sum_update(m.slots, i, v, SlotField::Size);
                        lemma_sum_update(m.slots, i, v, SlotField::Done);
                    },
                    None => {
                        lemma_new_slot_wf(m, id, size);
                    },
                }
            },
            ProgressEvent::BytesAdvanced { id, offset } => {
                match slot_index(m.slots, id) {
                    Some(i) => {
                        lemma_advanced_wf(m, i, offset);
                    },
                    None => {
                        lemma_new_slot_wf(m, id, 0);
                        lemma_advanced_wf(with_new_slot(m, id, 0), m.slots.len() as int, offset);
                    },
                }
            },
            ProgressEvent::ItemDone { id } => {
                if let Some(i) = slot_index(m.slots, id) {
                    if !m.slots[i].done {
                        let n = completed(m, i);
                        let v = n.slots[i];
                        assert(n.slots == m.slots.update(i, v));
                        lemma_update_keeps_ids(m.slots, i, v);
                        lemma_sum_update(m.slots, i, v, SlotField::Size);
                        lemma_sum_update(m.slots, i, v, SlotField::Done);
                    }
                }
            },
            _ => {},
        }
    }
}

/// Merges the per-item events of one session into running totals.
pub struct ProgressAggregator {
    slots: Vec<Slot>,
    size_sum: u64,
    done_bytes: u64,
    preset_total: u64,
    expected_items: usize,
    done_items: usize,
    stopped: bool,
}

impl View for ProgressAggregator {
    type V = AggregatorModel;

    closed spec fn view(&self) -> AggregatorModel {
        AggregatorModel {
            slots: self.slots@,
            size_sum: self.size_sum,
            done_bytes: self.done_bytes,
            preset_total: self.preset_total,
            expected_items: self.expected_items as nat,
            done_items: self.done_items as nat,
            stopped: self.stopped,
        }
    }
}

pub open spec fn initial_model(expected_items: nat, preset_total: u64) -> AggregatorModel {
    AggregatorModel {
        slots: seq![],
        size_sum: 0,
        done_bytes: 0,
        preset_total,
        expected_items,
        done_items: 0,
        stopped: false,
    }
}

impl ProgressAggregator {
    /// An aggregator for a session of `expected_items` items whose total
    /// size, if known beforehand, is `preset_total` (else 0).
    pub fn new(expected_items: usize, preset_total: u64) -> (r: Self)
        ensures
            r@ == initial_model(expected_items as nat, preset_total),
            model_wf(r@),
    {
        let r = ProgressAggregator {
            slots: Vec::new(),
            size_sum: 0,
            done_bytes: 0,
            preset_total,
            expected_items,
            done_items: 0,
            stopped: false,
        };
        assert(r@.slots =~= seq![]);
        r
    }

    fn natural_total(&self) -> (r: u64)
        ensures
            r == natural_total(self@),
    {
        if self.preset_total >= self.size_sum {
            self.preset_total
        } else {
            self.size_sum
        }
    }

    /// The current totals.
    pub fn progress(&self) -> (p: AggregateProgress)
        ensures
            p == progress_of(self@),
    {
        let natural = self.natural_total();
        let total = if natural >= self.done_bytes {
            natural
        } else {
            self.done_bytes
        };
        AggregateProgress { bytes_done: self.done_bytes, bytes_total: total }
    }

    /// Whether the session has ended, by completion or by failure.
    pub fn is_stopped(&self) -> (r: bool)
        ensures
            r == self@.stopped,
    {
        self.stopped
    }

    fn find_slot(&self, id: u64) -> (r: Option<usize>)
        requires
            model_wf(self@),
        ensures
            r matches Some(i) ==> i < self@.slots.len() && slot_index(self@.slots, id) == Some(
                i as int,
            ),
            r is None ==> slot_index(self@.slots, id) is None,
    {
        let mut i: usize = 0;
        while i < self.slots.len()
            invariant
                0 <= i <= self@.slots.len(),
                model_wf(self@),
                self.slots@ == self@.slots,
                forall|j: int| 0 <= j < i ==> (#[trigger] self@.slots[j]).id != id,
            decreases self@.slots.len() - i,
        {
            if self.slots[i].id == id {
                assert(self@.slots[i as int].id == id);
                assert(slot_index(self@.slots, id) is Some);
                let ghost c = slot_index(self@.slots, id)->0;
                assert(0 <= c < self@.slots.len() && self@.slots[c].id == id);
                assert(self@.slots[c].id == self@.slots[i as int].id);
                return Some(i);
            }
            i += 1;
        }
        None
    }

    fn push_slot(&mut self, id: u64, size: u64)
        requires
            model_wf(old(self)@),
            slot_index(old(self)@.slots, id) is None,
        ensures
            final(self)@ == with_new_slot(old(self)@, id, size),
            model_wf(final(self)@),
    {
        proof {
            lemma_new_slot_wf(self@, id, size);
        }
        let room = u64::MAX - self.size_sum;
        let sz = if size <= room {
            size
        } else {
            room
        };
        self.slots.push(Slot { id, size: sz, offset: 0, done: false });
        self.size_sum = self.size_sum + sz;
    }

    fn resize_slot(&mut self, i: usize, size: u64)
        requires
            model_wf(old(self)@),
            i < old(self)@.slots.len(),
        ensures
            final(self)@ == resized(old(self)@, i as int, size),
    {
        let ghost m = self@;
        let s = self.slots[i];
        proof {
            lemma_field_le_sum(m.slots, i as int, SlotField::Size);
        }
        let rest = self.size_sum - s.size;
        let room = u64::MAX - rest;
        let sz = if size <= room {
            size
        } else {
            room
        };
        self.slots.set(i, Slot { id: s.id, size: sz, offset: s.offset, done: s.done });
        self.size_sum = rest + sz;
    }

    fn advance_slot(&mut self, i: usize, offset: u64)
        requires
            model_wf(old(self)@),
            i < old(self)@.slots.len(),
        ensures
            final(self)@ == advanced(old(self)@, i as int, offset),
    {
        let s = self.slots[i];
        let delta = if offset > s.offset {
            offset - s.offset
        } else {
            0
        };
        let new_offset = if offset > s.offset {
            offset
        } else {
            s.offset
        };
        let cap = self.natural_total();
        let done = self.done_bytes;
        self.done_bytes = if done >= cap {
            done
        } else if delta <= cap - done {
            done + delta
        } else {
            cap
        };
        self.slots.set(i, Slot { id: s.id, size: s.size, offset: new_offset, done: s.done });
    }

    /// Takes one event into account and says what to report.
    pub fn step(&mut self, ev: ProgressEvent) -> (r: ProgressStep)
        requires
            model_wf(old(self)@),
        ensures
            (final(self)@, r) == step_spec(old(self)@, ev),
            model_wf(final(self)@),
    {
        let ghost m = self@;
        let ghost e = ev;
        proof {
            lemma_step_monotone(m, e);
        }
        if self.stopped {
            return ProgressStep::Quiet;
        }
        match ev {
            ProgressEvent::Connected => ProgressStep::Update(self.progress()),
            ProgressEvent::ManifestFound { .. } => ProgressStep::Quiet,
            ProgressEvent::Found { .. } => ProgressStep::Quiet,
            ProgressEvent::SizeKnown { id, size } => {
                match self.find_slot(id) {
                    Some(i) => self.resize_slot(i, size),
                    None => self.push_slot(id, size),
                }
                ProgressStep::Update(self.progress())
            },
            ProgressEvent::BytesAdvanced { id, offset } => {
                let i = match self.find_slot(id) {
                    Some(i) => {
                        if self.slots[i].done {
                            return ProgressStep::Quiet;
                        }
                        i
                    },
                    None => {
                        self.push_slot(id, 0);
                        self.slots.len() - 1
                    },
                };
                self.advance_slot(i, offset);
                ProgressStep::Update(self.progress())
            },
            ProgressEvent::ItemDone { id } => match self.find_slot(id) {
                Some(i) => {
                    let s = self.slots[i];
                    if s.done {
                        return ProgressStep::Quiet;
                    }
                    proof {
                        lemma_slot_done_counted(m.slots, i as int);
                    }
                    let n_slots = self.slots.len();
                    assert(self.done_items < n_slots);
                    let last = self.expected_items > 0 && self.done_items + 1 == self.expected_items;
                    self.slots.set(i, Slot { id: s.id, size: s.size, offset: s.offset, done: true });
                    self.done_items = self.done_items + 1;
                    assert(self@ == completed(m, i as int));
                    if last {
                        self.done_bytes = self.progress().bytes_total;
                        ProgressStep::Update(self.progress())
                    } else {
                        ProgressStep::Quiet
                    }
                },
                None => ProgressStep::Quiet,
            },
            ProgressEvent::AllDone | ProgressEvent::EndOfStream => {
                self.done_bytes = self.progress().bytes_total;
                self.stopped = true;
                ProgressStep::Finished(self.progress())
            },
            ProgressEvent::Aborted(reason) => {
                self.stopped = true;
                ProgressStep::Failed(reason)
            },
        }
    }
}

/// The state after feeding `evs` to an aggregator in state `m`.
pub open spec fn run(m: AggregatorModel, evs: Seq<ProgressEvent>) -> AggregatorModel
    decreases evs.len(),
{
    if evs.len() == 0 {
        m
    } else {
        step_spec(run(m, evs.drop_last()), evs.last()).0
    }
}

/// What the aggregator reports for each of `evs`, in order.
pub open spec fn reports(m: AggregatorModel, evs: Seq<ProgressEvent>) -> Seq<ProgressStep>
    decreases evs.len(),
{
    if evs.len() == 0 {
        seq![]
    } else {
        reports(m, evs.drop_last()).push(step_spec(run(m, evs.drop_last()), evs.last()).1)
    }
}

proof fn lemma_run(m: AggregatorModel, evs: Seq<ProgressEvent>)
    requires
        model_wf(m),
        m.done_bytes <= total_of(m),
    ensures
        reports(m, evs).len() == evs.len(),
        forall|j: int|
            0 <= j <= evs.len() ==> model_wf(#[trigger] run(m, evs.take(j))) && run(
                m,
                evs.take(j),
            ).done_bytes <= total_of(run(m, evs.take(j))),
        forall|j: int, k: int|
            0 <= j <= k <= evs.len() ==> (#[trigger] run(m, evs.take(j))).done_bytes <= (
            #[trigger] run(m, evs.take(k))).done_bytes,
        forall|k: int|
            0 <= k < evs.len() ==> match #[trigger] reports(m, evs)[k] {
                ProgressStep::Update(p) => p == progress_of(run(m, evs.take(k + 1))),
                ProgressStep::Finished(p) => p == progress_of(run(m, evs.take(k + 1)))
                    && p.bytes_done == p.bytes_total,
                _ => true,
            },
        forall|j: int, k: int|
            0 <= j < k < evs.len() && #[trigger] reports(m, evs)[j] is Finished ==> #[trigger] reports(
                m,
                evs,
            )[k] is Quiet,
        forall|k: int|
            0 <= k < evs.len() && (#[trigger] reports(m, evs)[k]) is Finished ==> run(
                m,
                evs.take(k + 1),
            ).stopped,
        forall|j: int, k: int|
            0 <= j <= k <= evs.len() && (#[trigger] run(m, evs.take(j))).stopped ==> (#[trigger] run(
                m,
                evs.take(k),
            )).stopped,
    decreases evs.len(),
{
    let n = evs.len() as int;
    assert(evs.take(0) =~= seq![]);
    if n > 0 {
        let pre = evs.drop_last();
        lemma_run(m, pre);
        assert forall|j: int| 0 <= j <= n - 1 implies #[trigger] evs.take(j) == pre.take(j) by {
            assert(evs.take(j) =~= pre.take(j));
        }
        assert(evs.take(n) =~= evs);
        assert(pre.take(n - 1) =~= pre);
        let last = run(m, pre);
        lemma_step_monotone(last, evs.last());
        assert(run(m, evs.take(n)) == step_spec(last, evs.last()).0);
        let r = reports(m, evs);
        assert(r == reports(m, pre).push(step_spec(last, evs.last()).1));
        assert forall|k: int| 0 <= k < n - 1 implies #[trigger] r[k] == reports(m, pre)[k] by {}
        assert forall|j: int, k: int| 0 <= j < k < n && #[trigger] r[j] is Finished implies #[trigger] r[k] is Quiet by {
            if k == n - 1 {
                assert(reports(m, pre)[j] is Finished);
                assert(run(m, pre.take(j + 1)).stopped);
                assert(run(m, pre.take(n - 1)).stopped);
            } else {
                assert(r[k] == reports(m, pre)[k]);
            }
        }
    }
}

/// Over a whole session the bytes done never go down and never pass the
/// total; every report carries the totals of the moment; the one final
/// report shows the bytes done equal to the total, and nothing is reported
/// after it.
pub proof fn lemma_session_progress(expected_items: nat, preset_total: u64, evs: Seq<ProgressEvent>)
    ensures
        ({
            let m = initial_model(expected_items, preset_total);
            &&& forall|j: int, k: int|
                0 <= j <= k <= evs.len() ==> (#[trigger] run(m, evs.take(j))).done_bytes <= (
                #[trigger] run(m, evs.take(k))).done_bytes
            &&& forall|j: int|
                0 <= j <= evs.len() ==> (#[trigger] run(m, evs.take(j))).done_bytes <= total_of(
                    run(m, evs.take(j)),
                )
            &&& forall|k: int|
                0 <= k < evs.len() ==> match #[trigger] reports(m, evs)[k] {
                    ProgressStep::Update(p) => p == progress_of(run(m, evs.take(k + 1))),
                    ProgressStep::Finished(p) => p.bytes_done == p.bytes_total,
                    _ => true,
                }
            &&& forall|j: int, k: int|
                0 <= j < k < evs.len() && #[trigger] reports(m, evs)[j] is Finished
                    ==> #[trigger] reports(m, evs)[k] is Quiet
        }),
{
    let m = initial_model(expected_items, preset_total);
    assert(m.slots =~= seq![]);
    lemma_run(m, evs);
}

} // verus!

//! Cutting a body into work items, and keeping results in order.
use vstd::prelude::*;
use std::collections::BTreeMap;
use crate::pipeline::WorkItem;

verus! {

/// Fewest chunks that may be in flight.
pub const INFLIGHT_FLOOR: usize = 16;

/// Chunks in flight per worker, if nothing else is asked for.
pub const INFLIGHT_DEFAULT_FACTOR: usize = 2;

/// A cap on the chunks that are dispatched and not yet handed on.
#[derive(Debug)]
pub struct InflightState {
    in_flight: usize,
    max: usize,
    shutdown: bool,
}

/// What came of asking for a place.
#[derive(Debug, Clone, Copy, PartialEq, Eq, Structural)]
pub enum Acquired {
    /// A place was taken.
    Yes,
    /// All places are taken.
    Full,
    /// No place will be given any more.
    ShutDown,
}

impl InflightState {
    pub closed spec fn in_flight(&self) -> int {
        self.in_flight as int
    }

    pub closed spec fn max(&self) -> int {
        self.max as int
    }

    pub closed spec fn is_shut_down(&self) -> bool {
        self.shutdown
    }

    /// Never more in flight than the cap, which leaves room for one at least.
    pub open spec fn wf(&self) -> bool {
        &&& 0 <= self.in_flight() <= self.max()
        &&& 1 <= self.max()
    }

    /// A cap of `max` chunks, but at least one.
    pub fn new(max: usize) -> (s: InflightState)
        ensures
            s.wf(),
            s.in_flight() == 0,
            s.max() == if max >= 1 { max as int } else { 1 },
            !s.is_shut_down(),
    {
        InflightState {
            in_flight: 0,
            max: if max >= 1 {
                max
            } else {
                1
            },
            shutdown: false,
        }
    }

    /// Takes a place, if there is one.
    pub fn try_acquire(&mut self) -> (a: Acquired)
        requires
            old(self).wf(),
        ensures
            final(self).wf(),
            final(self).max() == old(self).max(),
            final(self).is_shut_down() == old(self).is_shut_down(),
            a == if old(self).is_shut_down() {
                Acquired::ShutDown
            } else if old(self).in_flight() < old(self).max() {
                Acquired::Yes
            } else {
                Acquired::Full
            },
            final(self).in_flight() == old(self).in_flight() + if a == Acquired::Yes { 1int } else { 0int },
    {
        if self.shutdown {
            return Acquired::ShutDown;
        }
        if self.in_flight < self.max {
            self.in_flight = self.in_flight + 1;
            return Acquired::Yes;
        }
        Acquired::Full
    }

    /// Gives a place back.
    pub fn release(&mut self)
        requires
            old(self).wf(),
        ensures
            final(self).wf(),
            final(self).max() == old(self).max(),
            final(self).is_shut_down() == old(self).is_shut_down(),
            final(self).in_flight() == if old(self).in_flight() > 0 { old(self).in_flight() - 1 } else { 0 },
    {
        self.in_flight = self.in_flight.saturating_sub(1);
    }

    /// Gives no place any more.
    pub fn shutdown(&mut self)
        requires
            old(self).wf(),
        ensures
            final(self).wf(),
            final(self).max() == old(self).max(),
            final(self).in_flight() == old(self).in_flight(),
            final(self).is_shut_down(),
    {
        self.shutdown = true;
    }
}

/// What the setting for the cap says.
#[derive(Debug, Clone, Copy, PartialEq, Eq, Structural)]
pub enum InflightSetting {
    Unset,
    /// Set to something that is no number.
    NotANumber,
    Number(usize),
}

/// Chunks in flight per worker; `None` for no cap.
pub fn inflight_factor(setting: InflightSetting) -> (f: Option<usize>)
    ensures
        f == match setting {
            InflightSetting::Number(n) => if n == 0 {
                None::<usize>
            } else {
                Some(n)
            },
            _ => Some(INFLIGHT_DEFAULT_FACTOR),
        },
{
    match setting {
        InflightSetting::Number(n) => {
            if n == 0 {
                None
            } else {
                Some(n)
            }
        },
        _ => Some(INFLIGHT_DEFAULT_FACTOR),
    }
}

/// The cap for `num_threads` workers; none without a factor.
pub fn make_inflight_cap(num_threads: usize, factor: Option<usize>) -> (c: Option<InflightState>)
    requires
        factor is Some ==> num_threads * factor->Some_0 <= usize::MAX,
    ensures
        c is Some == factor is Some,
        c is Some ==> c->Some_0.wf() && c->Some_0.in_flight() == 0 && !c->Some_0.is_shut_down() && c->Some_0.max()
            == if num_threads * factor->Some_0 > INFLIGHT_FLOOR {
            num_threads * factor->Some_0
        } else {
            INFLIGHT_FLOOR as int
        },
{
    match factor {
        Some(f) => {
            let n: usize = num_threads * f;
            Some(
                InflightState::new(
                    if n > INFLIGHT_FLOOR {
                        n
                    } else {
                        INFLIGHT_FLOOR
                    },
                ),
            )
        },
        None => None,
    }
}

/// How many workers to use: as many as asked for, or else as many as the
/// machine offers; at least one.
pub fn effective_threads(num_threads: usize, available: Option<usize>) -> (n: usize)
    ensures
        n == if num_threads > 0 {
            num_threads as int
        } else {
            match available {
                Some(a) => if a > 0 {
                    a as int
                } else {
                    1
                },
                None => 1,
            }
        },
        n >= 1,
{
    if num_threads > 0 {
        return num_threads;
    }
    match available {
        Some(a) => {
            if a > 0 {
                a
            } else {
                1
            }
        },
        None => 1,
    }
}

/// How many bits a chunk spans: at least 64 KiB.
pub fn chunk_bits(chunk_size_bytes: usize) -> (n: u64)
    requires
        chunk_size_bytes <= u64::MAX / 8,
    ensures
        n == if chunk_size_bytes > 65536 { chunk_size_bytes * 8 } else { 65536int * 8 },
{
    if chunk_size_bytes > 65536 {
        chunk_size_bytes as u64 * 8
    } else {
        65536 * 8
    }
}

/// Where to look for block boundaries: at every multiple of `step` bits inside the body.
pub fn boundary_targets(total_bits: u64, step: u64) -> (targets: Vec<u64>)
    requires
        step > 0,
    ensures
        forall|i: int| 0 <= i < targets@.len() ==> #[trigger] targets@[i] == (i + 1) * step,
        targets@.len() * step < total_bits || targets@.len() == 0,
        (targets@.len() + 1) * step >= total_bits,
{
    let mut targets: Vec<u64> = Vec::new();
    proof {
        let n = targets@.len() as int;
        assert((n + 1) * step == step) by (nonlinear_arith)
            requires
                n == 0,
        ;
    }
    if total_bits <= step {
        return targets;
    }
    let mut c: u64 = step;
    loop
        invariant
            0 < step <= c < total_bits,
            c == (targets@.len() + 1) * step,
            forall|i: int| 0 <= i < targets@.len() ==> #[trigger] targets@[i] == (i + 1) * step,
        decreases total_bits - c,
    {
        targets.push(c);
        proof {
            let n = targets@.len() as int;
            assert((n + 1) * step == n * step + step) by (nonlinear_arith);
        }
        if total_bits - c <= step {
            return targets;
        }
        c = c + step;
    }
}

/// The boundaries that the searches found, each after the one before, the
/// start of the body first.
pub open spec fn boundaries_of(found: Seq<Option<u64>>) -> Seq<u64>
    decreases found.len(),
{
    if found.len() == 0 {
        seq![0u64]
    } else {
        let rest = boundaries_of(found.drop_last());
        match found.last() {
            Some(b) if b > rest.last() => rest.push(b),
            _ => rest,
        }
    }
}

/// Boundaries start at 0 and ascend.
pub open spec fn ascending_from_zero(b: Seq<u64>) -> bool {
    &&& b.len() > 0
    &&& b[0] == 0
    &&& forall|i: int, j: int| 0 <= i < j < b.len() ==> b[i] < b[j]
}

/// Keeps the boundaries that lie after the one kept before.
pub fn merge_boundaries(found: &[Option<u64>]) -> (b: Vec<u64>)
    ensures
        b@ == boundaries_of(found@),
        ascending_from_zero(b@),
{
    let mut b: Vec<u64> = Vec::new();
    b.push(0);
    let mut i: usize = 0;
    assert(found@.take(0) =~= Seq::<Option<u64>>::empty());
    assert(b@ =~= boundaries_of(found@.take(0)));
    while i < found.len()
        invariant
            i <= found@.len(),
            b@ == boundaries_of(found@.take(i as int)),
            ascending_from_zero(b@),
        decreases found@.len() - i,
    {
        assert(found@.take(i + 1).drop_last() =~= found@.take(i as int));
        if let Some(x) = found[i] {
            if x > b[b.len() - 1] {
                b.push(x);
            }
        }
        i = i + 1;
    }
    assert(found@.take(found@.len() as int) =~= found@);
    b
}

/// The item between boundary `i` and the next; the last one has no end.
pub open spec fn work_item(boundaries: Seq<u64>, i: int) -> WorkItem {
    WorkItem {
        id: i as u64,
        start_bit: boundaries[i],
        end_bit_hint: if i + 1 < boundaries.len() {
            boundaries[i + 1]
        } else {
            u64::MAX
        },
    }
}

/// One work item for each boundary.
pub open spec fn items_of(boundaries: Seq<u64>) -> Seq<WorkItem> {
    Seq::new(boundaries.len(), |i: int| work_item(boundaries, i))
}

/// One work item for each boundary.
pub fn work_items(boundaries: &[u64]) -> (items: Vec<WorkItem>)
    ensures
        items@ == items_of(boundaries@),
{
    let mut items: Vec<WorkItem> = Vec::with_capacity(boundaries.len());
    let mut i: usize = 0;
    while i < boundaries.len()
        invariant
            i <= boundaries@.len(),
            items@.len() == i,
            forall|j: int| 0 <= j < i ==> #[trigger] items@[j] == work_item(boundaries@, j),
        decreases boundaries@.len() - i,
    {
        let end_bit_hint: u64 = if i < boundaries.len() - 1 {
            boundaries[i + 1]
        } else {
            u64::MAX
        };
        items.push(WorkItem { id: i as u64, start_bit: boundaries[i], end_bit_hint });
        i = i + 1;
    }
    assert(items@ =~= items_of(boundaries@));
    items
}

/// What is done to a [`Reorder`].
pub ghost enum ReorderStep<T> {
    Insert(u64, T),
    Pop,
}

/// The state of a [`Reorder`]: what waits, by number, the number of the next
/// result to hand on, and what it has handed on.
pub ghost struct Reordered<T> {
    pub pending: Map<u64, T>,
    pub next_id: int,
    pub out: Seq<T>,
}

/// The state after a step, as [`Reorder::insert`] and [`Reorder::pop_next`] change it.
pub open spec fn reorder_step<T>(s: Reordered<T>, step: ReorderStep<T>) -> Reordered<T> {
    match step {
        ReorderStep::Insert(id, item) => Reordered { pending: s.pending.insert(id, item), ..s },
        ReorderStep::Pop => if s.pending.contains_key(s.next_id as u64) {
            Reordered {
                pending: s.pending.remove(s.next_id as u64),
                next_id: s.next_id + 1,
                out: s.out.push(s.pending[s.next_id as u64]),
            }
        } else {
            s
        },
    }
}

/// The state after some steps, the first on a new [`Reorder`].
pub open spec fn reordered<T>(steps: Seq<ReorderStep<T>>) -> Reordered<T>
    decreases steps.len(),
{
    if steps.len() == 0 {
        Reordered { pending: Map::empty(), next_id: 0, out: Seq::empty() }
    } else {
        reorder_step(reordered(steps.drop_last()), steps.last())
    }
}

/// Results that came out of order, and the number of the next one to hand on.
pub struct Reorder<T> {
    pending: BTreeMap<u64, T>,
    next_id: u64,
    handed_on: Ghost<Seq<T>>,
}

impl<T> View for Reorder<T> {
    type V = Reordered<T>;

    closed spec fn view(&self) -> Reordered<T> {
        Reordered { pending: self.pending@, next_id: self.next_id as int, out: self.handed_on@ }
    }
}

impl<T> Reorder<T> {
    /// Nothing waits, and number 0 is next.
    pub fn new() -> (r: Reorder<T>)
        ensures
            r@ == reordered(Seq::<ReorderStep<T>>::empty()),
    {
        Reorder { pending: BTreeMap::new(), next_id: 0, handed_on: Ghost(Seq::empty()) }
    }

    /// Takes in result number `id`.
    pub fn insert(&mut self, id: u64, item: T)
        ensures
            final(self)@ == reorder_step(old(self)@, ReorderStep::Insert(id, item)),
    {
        let _ = self.pending.insert(id, item);
    }

    /// Hands on the next result, if it has come.
    pub fn pop_next(&mut self) -> (r: Option<T>)
        requires
            old(self)@.next_id < u64::MAX,
        ensures
            final(self)@ == reorder_step(old(self)@, ReorderStep::<T>::Pop),
            match r {
                Some(item) => old(self)@.pending.contains_key(old(self)@.next_id as u64) && item
                    == old(self)@.pending[old(self)@.next_id as u64],
                None => !old(self)@.pending.contains_key(old(self)@.next_id as u64),
            },
    {
        match self.pending.remove(&self.next_id) {
            Some(item) => {
                proof {
                    self.handed_on@ = self.handed_on@.push(item);
                }
                self.next_id = self.next_id + 1;
                Some(item)
            },
            None => {
                assert(self.pending@ =~= old(self).pending@);
                None
            },
        }
    }

    /// The number of the next result to hand on.
    pub fn next(&self) -> (id: u64)
        ensures
            id == self@.next_id,
    {
        self.next_id
    }
}

/// All inserts are of one of `items`, under its number.
pub open spec fn numbered<T>(steps: Seq<ReorderStep<T>>, items: Seq<T>) -> bool {
    forall|i: int|
        0 <= i < steps.len() ==> match #[trigger] steps[i] {
            ReorderStep::Insert(id, item) => id < items.len() && item == items[id as int],
            ReorderStep::Pop => true,
        }
}

/// Item number `id` is among the inserts.
pub open spec fn inserted<T>(steps: Seq<ReorderStep<T>>, id: int) -> bool {
    exists|i: int| 0 <= i < steps.len() && steps[i] is Insert && #[trigger] steps[i]->Insert_0 == id
}

/// Whatever order items come in, they are handed on in the order of their
/// numbers, each once.
pub proof fn law_handed_on_in_order<T>(steps: Seq<ReorderStep<T>>, items: Seq<T>)
    requires
        numbered(steps, items),
        items.len() <= u64::MAX,
    ensures
        reordered(steps).next_id <= items.len(),
        reordered(steps).out == items.take(reordered(steps).next_id),
        0 <= reordered(steps).next_id,
        forall|id: u64| #[trigger]
            reordered(steps).pending.contains_key(id) ==> id < items.len() && reordered(steps).pending[id]
                == items[id as int],
        forall|id: int| #[trigger]
            inserted(steps, id) ==> id < reordered(steps).next_id || reordered(steps).pending.contains_key(id as u64),
    decreases steps.len(),
{
    if steps.len() == 0 {
        assert(items.take(0) =~= Seq::<T>::empty());
    } else {
        let before = steps.drop_last();
        let s = reordered(before);
        let r = reordered(steps);
        assert forall|i: int| 0 <= i < before.len() implies match #[trigger] before[i] {
            ReorderStep::Insert(id, item) => id < items.len() && item == items[id as int],
            ReorderStep::Pop => true,
        } by {
            assert(before[i] == steps[i]);
        }
        law_handed_on_in_order(before, items);
        if steps.last() is Pop && s.pending.contains_key(s.next_id as u64) {
            assert(items.take(s.next_id).push(items[s.next_id]) =~= items.take(s.next_id + 1));
        }
        assert(steps[steps.len() - 1] == steps.last());
        assert forall|id: int| #[trigger] inserted(steps, id) implies id < r.next_id || r.pending.contains_key(id as u64) by {
            let i = choose|i: int| 0 <= i < steps.len() && steps[i] is Insert && #[trigger] steps[i]->Insert_0 == id;
            if i < before.len() {
                assert(before[i]->Insert_0 == id);
                assert(inserted(before, id));
            }
        }
    }
}

/// `n` times asking for the next item.
pub open spec fn pops<T>(n: nat) -> Seq<ReorderStep<T>> {
    Seq::new(n, |i: int| ReorderStep::Pop)
}

/// Once all items have come, asking once for each of them hands on all of them.
pub proof fn law_all_handed_on<T>(steps: Seq<ReorderStep<T>>, items: Seq<T>, n: nat)
    requires
        numbered(steps, items),
        items.len() <= u64::MAX,
        forall|id: int| 0 <= id < items.len() ==> inserted(steps, id),
        n >= items.len(),
    ensures
        reordered(steps + pops(n)).out == items,
{
    lemma_pops(steps, items, n);
    assert(items.take(items.len() as int) =~= items);
}

proof fn lemma_pops<T>(steps: Seq<ReorderStep<T>>, items: Seq<T>, n: nat)
    requires
        numbered(steps, items),
        items.len() <= u64::MAX,
        forall|id: int| 0 <= id < items.len() ==> inserted(steps, id),
    ensures
        numbered(steps + pops(n), items),
        reordered(steps + pops(n)).next_id >= if n < items.len() { n as int } else { items.len() as int },
        reordered(steps + pops(n)).out == items.take(reordered(steps + pops(n)).next_id),
        reordered(steps + pops(n)).next_id <= items.len(),
    decreases n,
{
    let all = steps + pops::<T>(n);
    assert forall|i: int| 0 <= i < all.len() implies match #[trigger] all[i] {
        ReorderStep::Insert(id, item) => id < items.len() && item == items[id as int],
        ReorderStep::Pop => true,
    } by {
        if i < steps.len() {
            assert(all[i] == steps[i]);
        }
    }
    law_handed_on_in_order(all, items);
    if n > 0 {
        let before = steps + pops::<T>((n - 1) as nat);
        assert(all.drop_last() =~= before);
        lemma_pops(steps, items, (n - 1) as nat);
        law_handed_on_in_order(before, items);
        let s = reordered(before);
        if s.next_id < items.len() {
            assert(inserted(steps, s.next_id));
            let i = choose|i: int|
                0 <= i < steps.len() && steps[i] is Insert && #[trigger] steps[i]->Insert_0 == s.next_id;
            assert(before[i]->Insert_0 == s.next_id);
            assert(inserted(before, s.next_id));
        }
    }
}

/// Search `i` found a boundary after the start of the body and after all that the
/// searches before it found.
pub open spec fn leads(found: Seq<Option<u64>>, i: int) -> bool {
    &&& 0 <= i < found.len()
    &&& found[i] matches Some(b) && b > 0
    &&& forall|j: int| 0 <= j < i && (#[trigger] found[j]) is Some ==> found[j]->Some_0 < found[i]->Some_0
}

/// A body is cut at its start and wherever a search got farther than all before
/// it, and nowhere else; the cuts ascend.
pub proof fn law_boundaries_kept(found: Seq<Option<u64>>)
    ensures
        ascending_from_zero(boundaries_of(found)),
        forall|b: u64| #[trigger]
            boundaries_of(found).contains(b) <==> b == 0 || exists|i: int| #[trigger]
                leads(found, i) && found[i] == Some(b),
        forall|i: int| 0 <= i < found.len() && (#[trigger] found[i]) is Some ==> found[i]->Some_0 <= boundaries_of(
            found,
        ).last(),
    decreases found.len(),
{
    let all = boundaries_of(found);
    if found.len() == 0 {
        assert(all[0] == 0);
        assert(all.contains(0));
    } else {
        let before = found.drop_last();
        let rest = boundaries_of(before);
        let n = before.len() as int;
        law_boundaries_kept(before);
        assert(rest.last() == rest[rest.len() - 1]);
        assert(rest.contains(rest.last()));
        assert forall|i: int| 0 <= i < n implies #[trigger] leads(found, i) == leads(before, i) by {
            assert(forall|j: int| 0 <= j <= i ==> found[j] == before[j]);
        }
        let kept = match found.last() {
            Some(b) => b > rest.last(),
            None => false,
        };
        assert(leads(found, n) == kept) by {
            assert(forall|j: int| 0 <= j < n ==> found[j] == before[j]);
            if found.last() is Some && leads(found, n) && rest.last() > 0 {
                let i = choose|i: int| #[trigger] leads(before, i) && before[i] == Some(rest.last());
                assert(found[i] is Some);
            }
        }
        assert forall|b: u64| #[trigger] all.contains(b) implies b == 0 || exists|i: int| #[trigger]
            leads(found, i) && found[i] == Some(b) by {
            if rest.contains(b) {
                if b != 0 {
                    let i = choose|i: int| #[trigger] leads(before, i) && before[i] == Some(b);
                    assert(leads(found, i) && found[i] == Some(b));
                }
            } else {
                assert(leads(found, n) && found[n] == Some(b));
            }
        }
        assert forall|b: u64|
            b == 0 || exists|i: int| #[trigger] leads(found, i) && found[i] == Some(b) implies #[trigger] all.contains(
            b,
        ) by {
            if rest.contains(b) {
                let k = choose|k: int| 0 <= k < rest.len() && rest[k] == b;
                assert(all[k] == b);
            } else {
                let i = choose|i: int| #[trigger] leads(found, i) && found[i] == Some(b);
                if i < n {
                    assert(leads(before, i) && before[i] == Some(b));
                }
                assert(all.last() == b);
            }
        }
        assert forall|i: int|
            0 <= i < found.len() && (#[trigger] found[i]) is Some implies found[i]->Some_0 <= all.last() by {
            if i < n {
                assert(found[i] == before[i]);
            }
        }
    }
}

/// Every bit of a body belongs to exactly one work item: the one that starts at or
/// before it and ends after it. The items are numbered in order.
pub proof fn law_items_share_out(boundaries: Seq<u64>, p: int) -> (i: int)
    requires
        ascending_from_zero(boundaries),
        boundaries.len() <= u64::MAX,
        0 <= p < u64::MAX,
    ensures
        0 <= i < items_of(boundaries).len(),
        items_of(boundaries)[i].id == i,
        items_of(boundaries)[i].start_bit <= p < items_of(boundaries)[i].end_bit_hint,
        forall|j: int|
            0 <= j < items_of(boundaries).len() && (#[trigger] items_of(boundaries)[j]).start_bit <= p
                < items_of(boundaries)[j].end_bit_hint ==> j == i,
{
    let i = lemma_item_with(boundaries, p, 0);
    assert forall|j: int|
        0 <= j < items_of(boundaries).len() && (#[trigger] items_of(boundaries)[j]).start_bit <= p
            < items_of(boundaries)[j].end_bit_hint implies j == i by {
        if j < i {
            assert(boundaries[j + 1] <= boundaries[i]);
        } else if i < j {
            assert(boundaries[i + 1] <= boundaries[j]);
        }
    }
    i
}

proof fn lemma_item_with(boundaries: Seq<u64>, p: int, k: int) -> (i: int)
    requires
        ascending_from_zero(boundaries),
        0 <= k < boundaries.len(),
        boundaries[k] <= p < u64::MAX,
    ensures
        k <= i < boundaries.len(),
        boundaries[i] <= p,
        i + 1 < boundaries.len() ==> p < boundaries[i + 1],
    decreases boundaries.len() - k,
{
    if k + 1 < boundaries.len() && boundaries[k + 1] <= p {
        lemma_item_with(boundaries, p, k + 1)
    } else {
        k
    }
}

} // verus!

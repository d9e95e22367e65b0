//! The order in which AI work runs: two queues by priority, and a limit on
//! the work each provider runs at once. The application holds the work itself
//! (by ticket), runs it and reports when it is done.
use vstd::prelude::*;

use crate::ai::{find_provider, first_provider_index, lemma_first_provider_index};
use crate::models::Provider;
use crate::text::{chars_equal, chars_of};

verus! {

/// How urgent a piece of AI work is: what the user waits for, or file work
/// in the background.
#[derive(Debug, Clone, Copy, PartialEq, Eq, Structural)]
pub enum Priority {
    High,
    Low,
}

/// How much work runs at once for a provider: its `max_concurrent` (at least
/// one); background work of a provider that also serves text translation
/// leaves one slot free. An unknown provider counts as allowing two.
pub open spec fn provider_limit_spec(providers: Seq<Provider>, id: Seq<char>, priority: Priority) -> nat {
    let i = first_provider_index(providers, id);
    let (max_concurrent, text_model) = if i >= 0 {
        (providers[i].max_concurrent as nat, providers[i].text_translation_model)
    } else {
        (2nat, false)
    };
    let max = if max_concurrent < 1 {
        1
    } else {
        max_concurrent
    };
    if priority == Priority::Low && text_model && max > 1 {
        (max - 1) as nat
    } else {
        max
    }
}

/// How much work runs at once for a provider (see [`provider_limit_spec`]).
pub fn provider_limit(providers: &Vec<Provider>, id: &str, priority: Priority) -> (r: usize)
    ensures
        r == provider_limit_spec(providers@, id@, priority),
{
    proof {
        lemma_first_provider_index(providers@, id@);
    }
    let (max_concurrent, text_model) = match find_provider(providers, id) {
        Some(i) => (providers[i].max_concurrent, providers[i].text_translation_model),
        None => (2, false),
    };
    let max = if max_concurrent < 1 {
        1
    } else {
        max_concurrent
    };
    if priority == Priority::Low && text_model && max > 1 {
        max - 1
    } else {
        max
    }
}

/// A piece of work waiting: its ticket and the provider it goes to.
#[derive(Debug)]
pub struct Pending {
    pub ticket: u64,
    pub provider_id: String,
}

/// The work running for a provider, by priority.
#[derive(Debug)]
pub struct ActiveCount {
    pub provider_id: String,
    pub high: usize,
    pub low: usize,
}

/// The view of a waiting piece of work.
pub open spec fn pending_view(p: Pending) -> (u64, Seq<char>) {
    (p.ticket, p.provider_id@)
}

/// The views of a queue.
pub open spec fn queue_view(q: Seq<Pending>) -> Seq<(u64, Seq<char>)> {
    q.map_values(|p: Pending| pending_view(p))
}

/// The work running for each provider: high and low priority counts. A
/// provider with nothing running has no entry.
pub open spec fn active_view(a: Seq<ActiveCount>) -> Map<Seq<char>, (nat, nat)> {
    Map::new(
        |id: Seq<char>| exists|i: int| 0 <= i < a.len() && (#[trigger] a[i]).provider_id@ == id,
        |id: Seq<char>|
            {
                let i = choose|i: int| 0 <= i < a.len() && (#[trigger] a[i]).provider_id@ == id;
                (a[i].high as nat, a[i].low as nat)
            },
    )
}

/// The number of pieces of work running for a provider.
pub open spec fn running(active: Map<Seq<char>, (nat, nat)>, id: Seq<char>) -> nat {
    if active.dom().contains(id) {
        active[id].0 + active[id].1
    } else {
        0
    }
}

/// The waiting and running work.
#[derive(Debug)]
pub struct SchedulerState {
    high: Vec<Pending>,
    low: Vec<Pending>,
    active: Vec<ActiveCount>,
}

/// The index of the first piece of work in a queue whose provider has room
/// for it under the priority's limit, or -1.
pub open spec fn first_runnable(
    queue: Seq<(u64, Seq<char>)>,
    active: Map<Seq<char>, (nat, nat)>,
    providers: Seq<Provider>,
    priority: Priority,
    from: int,
) -> int
    decreases queue.len() - from,
{
    if from < 0 || from >= queue.len() {
        -1
    } else if running(active, queue[from].1) < provider_limit_spec(providers, queue[from].1, priority) {
        from
    } else {
        first_runnable(queue, active, providers, priority, from + 1)
    }
}

/// One more piece of work running for a provider at a priority.
pub open spec fn started(active: Map<Seq<char>, (nat, nat)>, id: Seq<char>, p: Priority) -> Map<
    Seq<char>,
    (nat, nat),
> {
    let (h, l) = if active.dom().contains(id) {
        active[id]
    } else {
        (0nat, 0nat)
    };
    active.insert(
        id,
        match p {
            Priority::High => (h + 1, l),
            Priority::Low => (h, l + 1),
        },
    )
}

/// One piece of work at a priority done for a provider: its count goes down
/// (not below zero), and a provider with nothing left running is dropped.
pub open spec fn finished(active: Map<Seq<char>, (nat, nat)>, id: Seq<char>, p: Priority) -> Map<
    Seq<char>,
    (nat, nat),
> {
    if active.dom().contains(id) {
        let (h, l) = active[id];
        let (h2, l2) = match p {
            Priority::High => (if h == 0 {
                0nat
            } else {
                (h - 1) as nat
            }, l),
            Priority::Low => (h, if l == 0 {
                0nat
            } else {
                (l - 1) as nat
            }),
        };
        if h2 == 0 && l2 == 0 {
            active.remove(id)
        } else {
            active.insert(id, (h2, l2))
        }
    } else {
        active
    }
}

impl SchedulerState {
    /// The high priority queue.
    pub closed spec fn high_spec(&self) -> Seq<(u64, Seq<char>)> {
        queue_view(self.high@)
    }

    /// The low priority queue.
    pub closed spec fn low_spec(&self) -> Seq<(u64, Seq<char>)> {
        queue_view(self.low@)
    }

    /// The work running, by provider.
    pub closed spec fn active_spec(&self) -> Map<Seq<char>, (nat, nat)> {
        active_view(self.active@)
    }

    /// Each provider has at most one entry of running work, and every entry
    /// has some work running.
    pub closed spec fn wf(&self) -> bool {
        &&& forall|i: int, j: int|
            0 <= i < j < self.active@.len() ==> (#[trigger] self.active@[i]).provider_id@
                != (#[trigger] self.active@[j]).provider_id@
        &&& forall|i: int|
            0 <= i < self.active@.len() ==> (#[trigger] self.active@[i]).high + self.active@[i].low > 0
    }

    /// Nothing waiting and nothing running.
    pub fn new() -> (r: SchedulerState)
        ensures
            r.wf(),
            r.high_spec().len() == 0,
            r.low_spec().len() == 0,
            r.active_spec() == Map::<Seq<char>, (nat, nat)>::empty(),
    {
        let r = SchedulerState { high: Vec::new(), low: Vec::new(), active: Vec::new() };
        assert(r.active_spec() =~= Map::<Seq<char>, (nat, nat)>::empty());
        r
    }

    /// Queues a piece of work behind the others of its priority.
    pub fn enqueue(&mut self, ticket: u64, provider_id: &str, priority: Priority)
        requires
            old(self).wf(),
        ensures
            final(self).wf(),
            final(self).active_spec() == old(self).active_spec(),
            match priority {
                Priority::High => final(self).high_spec() == old(self).high_spec().push((ticket, provider_id@))
                    && final(self).low_spec() == old(self).low_spec(),
                Priority::Low => final(self).low_spec() == old(self).low_spec().push((ticket, provider_id@))
                    && final(self).high_spec() == old(self).high_spec(),
            },
    {
        let pending = Pending { ticket, provider_id: String::from_str(provider_id) };
        match priority {
            Priority::High => {
                self.high.push(pending);
                assert(queue_view(self.high@) =~= queue_view(old(self).high@).push((ticket, provider_id@)));
            },
            Priority::Low => {
                self.low.push(pending);
                assert(queue_view(self.low@) =~= queue_view(old(self).low@).push((ticket, provider_id@)));
            },
        }
    }

    /// Nothing is waiting and nothing is running.
    pub fn is_idle(&self) -> (r: bool)
        requires
            self.wf(),
        ensures
            r == (self.high_spec().len() == 0 && self.low_spec().len() == 0 && self.active_spec().dom()
                =~= Set::<Seq<char>>::empty()),
    {
        proof {
            if self.active@.len() > 0 {
                assert(self.active_spec().dom().contains(self.active@[0].provider_id@));
            }
        }
        self.high.len() == 0 && self.low.len() == 0 && self.active.len() == 0
    }

    /// The index of the entry of a provider's running work.
    fn active_index(&self, id: &str) -> (r: Option<usize>)
        requires
            self.wf(),
        ensures
            match r {
                Some(i) => i < self.active@.len() && self.active@[i as int].provider_id@ == id@,
                None => !self.active_spec().dom().contains(id@),
            },
    {
        let idc = chars_of(id);
        let mut i: usize = 0;
        while i < self.active.len()
            invariant
                i <= self.active@.len(),
                idc@ == id@,
                forall|j: int| 0 <= j < i ==> (#[trigger] self.active@[j]).provider_id@ != id@,
            decreases self.active@.len() - i,
        {
            if chars_equal(chars_of(self.active[i].provider_id.as_str()).as_slice(), idc.as_slice()) {
                return Some(i);
            }
            i = i + 1;
        }
        None
    }
}

/// Facts about `first_runnable`: it is -1 or an index from `from` on whose
/// provider has room, and every earlier index from `from` has none.
pub proof fn lemma_first_runnable(
    queue: Seq<(u64, Seq<char>)>,
    active: Map<Seq<char>, (nat, nat)>,
    providers: Seq<Provider>,
    priority: Priority,
    from: int,
)
    requires
        0 <= from,
    ensures
        ({
            let r = first_runnable(queue, active, providers, priority, from);
            &&& r == -1 || (from <= r < queue.len() && running(active, queue[r].1) < provider_limit_spec(
                providers,
                queue[r].1,
                priority,
            ))
            &&& forall|k: int|
                from <= k < queue.len() && (r == -1 || k < r) ==> running(active, (#[trigger] queue[k]).1)
                    >= provider_limit_spec(providers, queue[k].1, priority)
        }),
    decreases queue.len() - from,
{
    if from < queue.len() && !(running(active, queue[from].1) < provider_limit_spec(providers, queue[from].1, priority)) {
        lemma_first_runnable(queue, active, providers, priority, from + 1);
    }
}

/// Entries of running work name each provider at most once.
pub open spec fn ids_distinct(a: Seq<ActiveCount>) -> bool {
    forall|i: int, j: int|
        0 <= i < j < a.len() ==> (#[trigger] a[i]).provider_id@ != (#[trigger] a[j]).provider_id@
}

proof fn lemma_active_at(a: Seq<ActiveCount>, i: int)
    requires
        ids_distinct(a),
        0 <= i < a.len(),
    ensures
        active_view(a).dom().contains(a[i].provider_id@),
        active_view(a)[a[i].provider_id@] == (a[i].high as nat, a[i].low as nat),
{
    let id = a[i].provider_id@;
    assert(active_view(a).dom().contains(id));
    let j = choose|j: int| 0 <= j < a.len() && (#[trigger] a[j]).provider_id@ == id;
    if j != i {
        if j < i {
            assert(a[j].provider_id@ != a[i].provider_id@);
        } else {
            assert(a[i].provider_id@ != a[j].provider_id@);
        }
    }
}

proof fn lemma_active_update(a: Seq<ActiveCount>, i: int, e: ActiveCount)
    requires
        ids_distinct(a),
        0 <= i < a.len(),
        e.provider_id@ == a[i].provider_id@,
    ensures
        ids_distinct(a.update(i, e)),
        active_view(a.update(i, e)) == active_view(a).insert(e.provider_id@, (e.high as nat, e.low as nat)),
{
    let b = a.update(i, e);
    assert forall|x: int, y: int| 0 <= x < y < b.len() implies (#[trigger] b[x]).provider_id@ != (
    #[trigger] b[y]).provider_id@ by {
        assert(a[x].provider_id@ != a[y].provider_id@);
    }
    let id = e.provider_id@;
    assert forall|k: Seq<char>| #[trigger] active_view(b).dom().contains(k) <==> active_view(a).insert(
        id,
        (e.high as nat, e.low as nat),
    ).dom().contains(k) by {
        if active_view(a).dom().contains(k) {
            let j = choose|j: int| 0 <= j < a.len() && (#[trigger] a[j]).provider_id@ == k;
            assert(b[j].provider_id@ == k);
        }
        if active_view(b).dom().contains(k) {
            let j = choose|j: int| 0 <= j < b.len() && (#[trigger] b[j]).provider_id@ == k;
            assert(a[j].provider_id@ == k);
        }
    }
    assert forall|k: Seq<char>| #[trigger] active_view(b).dom().contains(k) implies active_view(b)[k]
        == active_view(a).insert(id, (e.high as nat, e.low as nat))[k] by {
        let j = choose|j: int| 0 <= j < b.len() && (#[trigger] b[j]).provider_id@ == k;
        lemma_active_at(b, j);
        if j != i {
            lemma_active_at(a, j);
        }
    }
    assert(active_view(b) =~= active_view(a).insert(id, (e.high as nat, e.low as nat)));
}

proof fn lemma_active_push(a: Seq<ActiveCount>, e: ActiveCount)
    requires
        ids_distinct(a),
        !active_view(a).dom().contains(e.provider_id@),
    ensures
        ids_distinct(a.push(e)),
        active_view(a.push(e)) == active_view(a).insert(e.provider_id@, (e.high as nat, e.low as nat)),
{
    let b = a.push(e);
    let id = e.provider_id@;
    assert forall|x: int, y: int| 0 <= x < y < b.len() implies (#[trigger] b[x]).provider_id@ != (
    #[trigger] b[y]).provider_id@ by {
        if y == a.len() {
            assert(b[x] == a[x]);
            if a[x].provider_id@ == id {
                assert(active_view(a).dom().contains(id));
            }
        }
    }
    assert forall|k: Seq<char>| #[trigger] active_view(b).dom().contains(k) <==> active_view(a).insert(
        id,
        (e.high as nat, e.low as nat),
    ).dom().contains(k) by {
        if active_view(a).dom().contains(k) {
            let j = choose|j: int| 0 <= j < a.len() && (#[trigger] a[j]).provider_id@ == k;
            assert(b[j].provider_id@ == k);
        }
        if k == id {
            assert(b[a.len() as int].provider_id@ == k);
        }
        if active_view(b).dom().contains(k) {
            let j = choose|j: int| 0 <= j < b.len() && (#[trigger] b[j]).provider_id@ == k;
            if j < a.len() {
                assert(a[j].provider_id@ == k);
            }
        }
    }
    assert forall|k: Seq<char>| #[trigger] active_view(b).dom().contains(k) implies active_view(b)[k]
        == active_view(a).insert(id, (e.high as nat, e.low as nat))[k] by {
        let j = choose|j: int| 0 <= j < b.len() && (#[trigger] b[j]).provider_id@ == k;
        lemma_active_at(b, j);
        if j < a.len() {
            lemma_active_at(a, j);
        }
    }
    assert(active_view(b) =~= active_view(a).insert(id, (e.high as nat, e.low as nat)));
}

proof fn lemma_active_remove(a: Seq<ActiveCount>, i: int)
    requires
        ids_distinct(a),
        0 <= i < a.len(),
    ensures
        ids_distinct(a.remove(i)),
        active_view(a.remove(i)) == active_view(a).remove(a[i].provider_id@),
{
    let b = a.remove(i);
    let id = a[i].provider_id@;
    assert forall|x: int, y: int| 0 <= x < y < b.len() implies (#[trigger] b[x]).provider_id@ != (
    #[trigger] b[y]).provider_id@ by {
        let xa = if x < i { x } else { x + 1 };
        let ya = if y < i { y } else { y + 1 };
        assert(b[x] == a[xa] && b[y] == a[ya]);
        assert(a[xa].provider_id@ != a[ya].provider_id@);
    }
    assert forall|k: Seq<char>| #[trigger] active_view(b).dom().contains(k) <==> active_view(a).remove(
        id,
    ).dom().contains(k) by {
        if active_view(a).dom().contains(k) && k != id {
            let j = choose|j: int| 0 <= j < a.len() && (#[trigger] a[j]).provider_id@ == k;
            assert(j != i);
            let jb = if j < i { j } else { j - 1 };
            assert(b[jb] == a[j]);
        }
        if active_view(b).dom().contains(k) {
            let j = choose|j: int| 0 <= j < b.len() && (#[trigger] b[j]).provider_id@ == k;
            let ja = if j < i { j } else { j + 1 };
            assert(b[j] == a[ja]);
            assert(a[ja].provider_id@ != a[i].provider_id@) by {
                if ja < i {
                } else {
                }
            }
        }
    }
    assert forall|k: Seq<char>| #[trigger] active_view(b).dom().contains(k) implies active_view(b)[k]
        == active_view(a).remove(id)[k] by {
        let j = choose|j: int| 0 <= j < b.len() && (#[trigger] b[j]).provider_id@ == k;
        lemma_active_at(b, j);
        let ja = if j < i { j } else { j + 1 };
        assert(b[j] == a[ja]);
        lemma_active_at(a, ja);
    }
    assert(active_view(b) =~= active_view(a).remove(id));
}

impl SchedulerState {
    /// The index of the first piece of work in a queue that can start.
    fn find_runnable(
        queue: &Vec<Pending>,
        active: &Vec<ActiveCount>,
        providers: &Vec<Provider>,
        priority: Priority,
        state: &SchedulerState,
    ) -> (r: Option<usize>)
        requires
            state.wf(),
            active@ == state.active@,
        ensures
            match r {
                Some(i) => first_runnable(queue_view(queue@), active_view(active@), providers@, priority, 0)
                    == i,
                None => first_runnable(queue_view(queue@), active_view(active@), providers@, priority, 0)
                    < 0,
            },
    {
        let ghost q = queue_view(queue@);
        let ghost av = active_view(active@);
        let mut i: usize = 0;
        while i < queue.len()
            invariant
                i <= queue@.len(),
                q == queue_view(queue@),
                av == active_view(active@),
                active@ == state.active@,
                state.wf(),
                first_runnable(q, av, providers@, priority, 0) == first_runnable(q, av, providers@, priority, i as int),
            decreases queue@.len() - i,
        {
            let id = queue[i].provider_id.as_str();
            assert(q[i as int].1 == id@);
            let count = match state.active_index(id) {
                Some(k) => {
                    proof {
                        lemma_active_at(active@, k as int);
                    }
                    active[k].high as u128 + active[k].low as u128
                },
                None => 0,
            };
            let limit = provider_limit(providers, id, priority);
            if count < limit as u128 {
                return Some(i);
            }
            i = i + 1;
        }
        None
    }

    /// Starts the next piece of work: the first in the high priority queue
    /// whose provider has room for it under its limit, else the first such in
    /// the low priority queue. It leaves its queue and counts as running; the
    /// ticket, the provider and the priority are returned. When nothing can
    /// start, nothing changes.
    pub fn next_runnable(&mut self, providers: &Vec<Provider>) -> (r: Option<(u64, String, Priority)>)
        requires
            old(self).wf(),
        ensures
            final(self).wf(),
            ({
                let hi = first_runnable(old(self).high_spec(), old(self).active_spec(), providers@, Priority::High, 0);
                let lo = first_runnable(old(self).low_spec(), old(self).active_spec(), providers@, Priority::Low, 0);
                if hi >= 0 {
                    let (t, id) = old(self).high_spec()[hi];
                    &&& r is Some && r->Some_0.0 == t && r->Some_0.1@ == id && r->Some_0.2 == Priority::High
                    &&& final(self).high_spec() == old(self).high_spec().remove(hi)
                    &&& final(self).low_spec() == old(self).low_spec()
                    &&& final(self).active_spec() == started(old(self).active_spec(), id, Priority::High)
                } else if lo >= 0 {
                    let (t, id) = old(self).low_spec()[lo];
                    &&& r is Some && r->Some_0.0 == t && r->Some_0.1@ == id && r->Some_0.2 == Priority::Low
                    &&& final(self).low_spec() == old(self).low_spec().remove(lo)
                    &&& final(self).high_spec() == old(self).high_spec()
                    &&& final(self).active_spec() == started(old(self).active_spec(), id, Priority::Low)
                } else {
                    &&& r is None
                    &&& final(self).high_spec() == old(self).high_spec()
                    &&& final(self).low_spec() == old(self).low_spec()
                    &&& final(self).active_spec() == old(self).active_spec()
                }
            }),
    {
        let (index, priority) = match Self::find_runnable(&self.high, &self.active, providers, Priority::High, self) {
            Some(i) => (i, Priority::High),
            None => match Self::find_runnable(&self.low, &self.active, providers, Priority::Low, self) {
                Some(i) => (i, Priority::Low),
                None => {
                    return None;
                },
            },
        };
        let ghost old_high = queue_view(self.high@);
        let ghost old_low = queue_view(self.low@);
        proof {
            lemma_first_runnable(old_high, active_view(self.active@), providers@, Priority::High, 0);
            lemma_first_runnable(old_low, active_view(self.active@), providers@, Priority::Low, 0);
        }
        let pending = match priority {
            Priority::High => {
                let ghost before = self.high@;
                let p = self.high.remove(index);
                assert(queue_view(self.high@) =~= queue_view(before).remove(index as int));
                p
            },
            Priority::Low => {
                let ghost before = self.low@;
                let p = self.low.remove(index);
                assert(queue_view(self.low@) =~= queue_view(before).remove(index as int));
                p
            },
        };
        let ghost id = pending.provider_id@;
        let limit = provider_limit(providers, pending.provider_id.as_str(), priority);
        let ghost before_active = self.active@;
        match self.active_index(pending.provider_id.as_str()) {
            Some(k) => {
                proof {
                    lemma_active_at(self.active@, k as int);
                }
                let mut entry = self.active.remove(k);
                match priority {
                    Priority::High => {
                        entry.high = entry.high + 1;
                    },
                    Priority::Low => {
                        entry.low = entry.low + 1;
                    },
                }
                self.active.insert(k, entry);
                proof {
                    assert(self.active@ =~= before_active.update(k as int, self.active@[k as int]));
                    lemma_active_update(before_active, k as int, self.active@[k as int]);
                }
            },
            None => {
                let entry = match priority {
                    Priority::High => ActiveCount {
                        provider_id: String::from_str(pending.provider_id.as_str()),
                        high: 1,
                        low: 0,
                    },
                    Priority::Low => ActiveCount {
                        provider_id: String::from_str(pending.provider_id.as_str()),
                        high: 0,
                        low: 1,
                    },
                };
                proof {
                    lemma_active_push(before_active, entry);
                }
                self.active.push(entry);
            },
        }
        Some((pending.ticket, pending.provider_id, priority))
    }

    /// Records that a piece of work of a provider at a priority is done.
    pub fn complete(&mut self, provider_id: &str, priority: Priority)
        requires
            old(self).wf(),
        ensures
            final(self).wf(),
            final(self).high_spec() == old(self).high_spec(),
            final(self).low_spec() == old(self).low_spec(),
            final(self).active_spec() == finished(old(self).active_spec(), provider_id@, priority),
    {
        let ghost before_active = self.active@;
        match self.active_index(provider_id) {
            Some(k) => {
                proof {
                    lemma_active_at(self.active@, k as int);
                }
                let mut entry = self.active.remove(k);
                match priority {
                    Priority::High => {
                        entry.high = if entry.high == 0 {
                            0
                        } else {
                            entry.high - 1
                        };
                    },
                    Priority::Low => {
                        entry.low = if entry.low == 0 {
                            0
                        } else {
                            entry.low - 1
                        };
                    },
                }
                if entry.high == 0 && entry.low == 0 {
                    proof {
                        assert(self.active@ =~= before_active.remove(k as int));
                        lemma_active_remove(before_active, k as int);
                    }
                } else {
                    self.active.insert(k, entry);
                    proof {
                        assert(self.active@ =~= before_active.update(k as int, self.active@[k as int]));
                        lemma_active_update(before_active, k as int, self.active@[k as int]);
                    }
                }
            },
            None => {},
        }
    }
}

/// Every provider with an entry has some work running.
pub open spec fn all_running(active: Map<Seq<char>, (nat, nat)>) -> bool {
    forall|k: Seq<char>| #[trigger] active.dom().contains(k) ==> active[k].0 + active[k].1 > 0
}

/// A well-formed state lists only providers with work running.
pub proof fn lemma_wf_all_running(s: SchedulerState)
    requires
        s.wf(),
    ensures
        all_running(s.active_spec()),
{
    assert forall|k: Seq<char>| #[trigger] s.active_spec().dom().contains(k) implies s.active_spec()[k].0
        + s.active_spec()[k].1 > 0 by {
        let j = choose|j: int| 0 <= j < s.active@.len() && (#[trigger] s.active@[j]).provider_id@ == k;
        lemma_active_at(s.active@, j);
    }
}

/// Work that starts stays within its provider's limit: the provider of the
/// work picked from a queue runs no more pieces than its limit allows.
pub proof fn lemma_start_within_limit(
    queue: Seq<(u64, Seq<char>)>,
    active: Map<Seq<char>, (nat, nat)>,
    providers: Seq<Provider>,
    priority: Priority,
)
    ensures
        ({
            let r = first_runnable(queue, active, providers, priority, 0);
            r >= 0 ==> running(started(active, queue[r].1, priority), queue[r].1) <= provider_limit_spec(
                providers,
                queue[r].1,
                priority,
            )
        }),
{
    lemma_first_runnable(queue, active, providers, priority, 0);
}

/// Background work waits while urgent work can start: when a low priority
/// piece starts, no high priority piece could have.
pub proof fn lemma_high_priority_first(s: SchedulerState, providers: Seq<Provider>)
    ensures
        first_runnable(s.high_spec(), s.active_spec(), providers, Priority::High, 0) < 0 ==> forall|k: int|
            0 <= k < s.high_spec().len() ==> running(s.active_spec(), (#[trigger] s.high_spec()[k]).1)
                >= provider_limit_spec(providers, s.high_spec()[k].1, Priority::High),
{
    lemma_first_runnable(s.high_spec(), s.active_spec(), providers, Priority::High, 0);
}

/// Starting a piece of work and then recording it done leaves the running
/// work as it was.
pub proof fn lemma_start_then_finish(active: Map<Seq<char>, (nat, nat)>, id: Seq<char>, priority: Priority)
    requires
        all_running(active),
    ensures
        finished(started(active, id, priority), id, priority) == active,
{
    let s = started(active, id, priority);
    if active.dom().contains(id) {
        assert(active[id].0 + active[id].1 > 0);
        assert(finished(s, id, priority) =~= active.insert(id, active[id]));
        assert(active.insert(id, active[id]) =~= active);
    } else {
        assert(finished(s, id, priority) =~= active.insert(id, (0nat, 0nat)).remove(id));
        assert(active.insert(id, (0nat, 0nat)).remove(id) =~= active);
    }
}

/// No provider runs more work than its limit allows.
pub open spec fn within_limits(active: Map<Seq<char>, (nat, nat)>, providers: Seq<Provider>) -> bool {
    forall|id: Seq<char>|
        #[trigger] active.dom().contains(id) ==> running(active, id) <= provider_limit_spec(
            providers,
            id,
            Priority::High,
        )
}

/// Nothing running is within every limit.
pub proof fn lemma_idle_within_limits(providers: Seq<Provider>)
    ensures
        within_limits(Map::<Seq<char>, (nat, nat)>::empty(), providers),
{
}

/// At all times each provider runs at most its limit (`max_concurrent`, at
/// least one): starting the piece of work that `next_runnable` picks from a
/// queue keeps every provider within its limit, given the same providers.
pub proof fn lemma_start_keeps_limits(
    queue: Seq<(u64, Seq<char>)>,
    active: Map<Seq<char>, (nat, nat)>,
    providers: Seq<Provider>,
    priority: Priority,
)
    requires
        within_limits(active, providers),
    ensures
        ({
            let r = first_runnable(queue, active, providers, priority, 0);
            r >= 0 ==> within_limits(started(active, queue[r].1, priority), providers)
        }),
{
    lemma_first_runnable(queue, active, providers, priority, 0);
    let r = first_runnable(queue, active, providers, priority, 0);
    if r >= 0 {
        let id = queue[r].1;
        let next = started(active, id, priority);
        assert(provider_limit_spec(providers, id, priority) <= provider_limit_spec(
            providers,
            id,
            Priority::High,
        ));
        assert forall|k: Seq<char>| #[trigger] next.dom().contains(k) implies running(next, k)
            <= provider_limit_spec(providers, k, Priority::High) by {
            if k != id {
                assert(active.dom().contains(k));
                assert(next[k] == active[k]);
            }
        }
    }
}

/// Recording work done (as `complete` does) keeps every provider within its
/// limit.
pub proof fn lemma_finish_keeps_limits(
    active: Map<Seq<char>, (nat, nat)>,
    providers: Seq<Provider>,
    id: Seq<char>,
    priority: Priority,
)
    requires
        within_limits(active, providers),
    ensures
        within_limits(finished(active, id, priority), providers),
{
    let next = finished(active, id, priority);
    assert forall|k: Seq<char>| #[trigger] next.dom().contains(k) implies running(next, k)
        <= provider_limit_spec(providers, k, Priority::High) by {
        assert(active.dom().contains(k));
        assert(running(next, k) <= running(active, k));
    }
}

} // verus!

use vstd::prelude::*;

use crate::error::{ensure_shape, MetricChronoError, Result};

verus! {

/// Stable event identifier within an [`EventLog`].
pub type EventId = usize;

/// One event-log record: the state it was appended for, its per-tier event
/// flags, and per tier the skip pointer to the next record with an event at
/// that tier.
#[derive(Clone, Debug, PartialEq)]
pub struct EventRecord<S> {
    pub state_id: S,
    pub events: Vec<bool>,
    pub next_event: Vec<Option<usize>>,
}

/// First record at or after `start` with an event at `tier`.
pub open spec fn next_event_from(events: Seq<Seq<bool>>, tier: int, start: nat) -> Option<usize>
    decreases events.len() - start,
{
    if start >= events.len() {
        None
    } else if events[start as int][tier] {
        Some(start as usize)
    } else {
        next_event_from(events, tier, start + 1)
    }
}

/// Last record before `end` with an event at `tier`.
pub open spec fn last_event_before(events: Seq<Seq<bool>>, tier: int, end: nat) -> Option<usize>
    decreases end,
{
    if end == 0 {
        None
    } else if events[end - 1][tier] {
        Some((end - 1) as usize)
    } else {
        last_event_before(events, tier, (end - 1) as nat)
    }
}

/// All records at or after `start` with an event at `tier`, in append order.
pub open spec fn event_indices_from(events: Seq<Seq<bool>>, tier: int, start: nat) -> Seq<usize>
    decreases events.len() - start,
{
    if start >= events.len() {
        Seq::empty()
    } else {
        let rest = event_indices_from(events, tier, start + 1);
        if events[start as int][tier] {
            seq![start as usize] + rest
        } else {
            rest
        }
    }
}

/// Skip pointer of record `i` at `tier`: the next event of that tier after an
/// event record, nothing for any other record.
pub open spec fn skip_pointer(events: Seq<Seq<bool>>, i: int, tier: int) -> Option<usize> {
    if events[i][tier] {
        next_event_from(events, tier, (i + 1) as nat)
    } else {
        None
    }
}

/// Basic in-memory event skip-list.
#[derive(Clone, Debug, PartialEq)]
pub struct EventLog<S> {
    tier_count: usize,
    records: Vec<EventRecord<S>>,
    first_by_tier: Vec<Option<usize>>,
    last_by_tier: Vec<Option<usize>>,
}

impl<S> EventLog<S> {
    /// Number of tiers every record carries.
    pub closed spec fn tiers(&self) -> nat {
        self.tier_count as nat
    }

    /// Per-record event flags, in append order.
    pub closed spec fn events(&self) -> Seq<Seq<bool>> {
        Seq::new(self.records@.len(), |i: int| self.records@[i].events@)
    }

    /// Per-record state identifiers, in append order.
    pub closed spec fn state_ids(&self) -> Seq<S> {
        Seq::new(self.records@.len(), |i: int| self.records@[i].state_id)
    }

    /// Skip pointer of record `i` at `tier`, as stored.
    pub closed spec fn stored_next(&self, i: int, tier: int) -> Option<usize> {
        self.records@[i].next_event@[tier]
    }

    /// Well-formedness: every record has one flag and one skip pointer per
    /// tier; an event record points at the next event of its tier, any other
    /// record at nothing; the first and last event of each tier are known.
    pub closed spec fn wf(&self) -> bool {
        let ev = self.events();
        &&& self.tier_count > 0
        &&& self.first_by_tier@.len() == self.tier_count
        &&& self.last_by_tier@.len() == self.tier_count
        &&& forall|i: int|
            0 <= i < self.records@.len() ==> #[trigger] self.records@[i].events@.len()
                == self.tier_count
        &&& forall|i: int|
            0 <= i < self.records@.len() ==> #[trigger] self.records@[i].next_event@.len()
                == self.tier_count
        &&& forall|i: int, t: int|
            0 <= i < self.records@.len() && 0 <= t < self.tier_count ==> #[trigger] self.records@[i].next_event@[t]
                == (if ev[i][t] {
                next_event_from(ev, t, (i + 1) as nat)
            } else {
                None
            })
        &&& forall|t: int|
            0 <= t < self.tier_count ==> #[trigger] self.first_by_tier@[t] == next_event_from(
                ev,
                t,
                0,
            )
        &&& forall|t: int|
            0 <= t < self.tier_count ==> #[trigger] self.last_by_tier@[t] == last_event_before(
                ev,
                t,
                ev.len(),
            )
    }

    /// Append a record. An event flag at tier `k` makes the record an event at
    /// tier `k` and updates the skip pointer from the previous event.
    pub fn append(&mut self, state_id: S, events: Vec<bool>) -> (r: Result<EventId>)
        requires
            old(self).wf(),
        ensures
            final(self).wf(),
            final(self).tiers() == old(self).tiers(),
            r is Ok <==> events@.len() == old(self).tiers(),
            events@.len() != old(self).tiers() ==> {
                &&& r == Err::<EventId, MetricChronoError>(
                    MetricChronoError::ShapeMismatch {
                        expected: old(self).tiers() as usize,
                        actual: events@.len() as usize,
                        context: "tick vector",
                    },
                )
                &&& final(self).events() == old(self).events()
                &&& final(self).state_ids() == old(self).state_ids()
            },
            events@.len() == old(self).tiers() ==> {
                &&& r == Ok::<EventId, MetricChronoError>(old(self).events().len() as usize)
                &&& final(self).events() == old(self).events().push(events@)
                &&& final(self).state_ids() == old(self).state_ids().push(state_id)
            },
    {
        let ghost ev = self.events();
        let ghost ids = self.state_ids();
        let ghost e = events@;
        ensure_shape(self.tier_count, events.len(), "tick vector")?;
        let tier_count = self.tier_count;
        let index = self.records.len();
        let next_event = none_vec(tier_count);
        self.records.push(EventRecord { state_id, events, next_event });
        let count = self.records.len();
        assert(count == index + 1);
        let ghost ev2 = ev.push(e);
        assert(self.events() =~= ev2);
        assert(self.state_ids() =~= ids.push(state_id));
        let mut tier: usize = 0;
        while tier < tier_count
            invariant
                tier <= tier_count,
                tier_count == self.tier_count,
                tier_count > 0,
                index == ev.len(),
                ev.len() < usize::MAX,
                e.len() == tier_count,
                ev2 == ev.push(e),
                self.records@.len() == index + 1,
                self.first_by_tier@.len() == tier_count,
                self.last_by_tier@.len() == tier_count,
                self.events() == ev2,
                self.state_ids() == ids.push(state_id),
                forall|i: int|
                    0 <= i < self.records@.len() ==> #[trigger] self.records@[i].events@.len()
                        == tier_count,
                forall|i: int|
                    0 <= i < self.records@.len() ==> #[trigger] self.records@[i].next_event@.len()
                        == tier_count,
                forall|i: int, u: int|
                    0 <= i < self.records@.len() && 0 <= u < tier ==> #[trigger] self.records@[i].next_event@[u]
                        == (if ev2[i][u] {
                        next_event_from(ev2, u, (i + 1) as nat)
                    } else {
                        None
                    }),
                forall|i: int, u: int|
                    0 <= i < index && tier <= u < tier_count ==> #[trigger] self.records@[i].next_event@[u]
                        == (if ev[i][u] {
                        next_event_from(ev, u, (i + 1) as nat)
                    } else {
                        None
                    }),
                forall|u: int|
                    tier <= u < tier_count ==> #[trigger] self.records@[index as int].next_event@[u]
                        == None::<usize>,
                forall|u: int|
                    0 <= u < tier ==> #[trigger] self.first_by_tier@[u] == next_event_from(ev2, u, 0),
                forall|u: int|
                    tier <= u < tier_count ==> #[trigger] self.first_by_tier@[u] == next_event_from(
                        ev,
                        u,
                        0,
                    ),
                forall|u: int|
                    0 <= u < tier ==> #[trigger] self.last_by_tier@[u] == last_event_before(
                        ev2,
                        u,
                        ev2.len(),
                    ),
                forall|u: int|
                    tier <= u < tier_count ==> #[trigger] self.last_by_tier@[u] == last_event_before(
                        ev,
                        u,
                        ev.len(),
                    ),
            decreases tier_count - tier,
        {
            proof {
                lemma_append_tier(ev, e, tier as int);
            }
            let ghost t = tier as int;
            let ghost before = self.records@;
            let is_event = self.records[index].events[tier];
            assert(is_event == e[t]) by {
                assert(ev2[index as int] == e);
            }
            if is_event {
                match self.last_by_tier[tier] {
                    Some(prev) => {
                        assert(prev < index);
                        assert(self.records@[prev as int].next_event@.len() == tier_count);
                        self.records[prev].next_event[tier] = Some(index);
                    },
                    None => {
                        self.first_by_tier[tier] = Some(index);
                    },
                }
                self.last_by_tier[tier] = Some(index);
            }
            assert forall|i: int, u: int|
                0 <= i < self.records@.len() && 0 <= u < tier_count && u != t implies #[trigger] self.records@[i].next_event@[u]
                == before[i].next_event@[u] by {}
            assert forall|i: int|
                0 <= i < self.records@.len() implies #[trigger] self.records@[i].events@ == before[i].events@ by {}
            assert(self.events() =~= ev2);
            assert(self.state_ids() =~= ids.push(state_id));
            assert forall|i: int|
                0 <= i < self.records@.len() implies #[trigger] self.records@[i].next_event@[t]
                == (if ev2[i][t] {
                next_event_from(ev2, t, (i + 1) as nat)
            } else {
                None
            }) by {
                if i < index {
                    assert(ev2[i] == ev[i]);
                } else {
                    assert(ev2[i] == e);
                }
            }
            tier = tier + 1;
        }
        proof {
            assert forall|u: int|
                0 <= u < tier_count implies #[trigger] self.last_by_tier@[u] == last_event_before(
                self.events(),
                u,
                self.events().len(),
            ) by {}
        }
        Ok(index)
    }

    /// Number of records.
    pub fn len(&self) -> (n: usize)
        ensures
            n == self.events().len(),
    {
        self.records.len()
    }

    /// Whether no record was appended yet.
    pub fn is_empty(&self) -> (b: bool)
        ensures
            b == (self.events().len() == 0),
    {
        self.records.len() == 0
    }

    /// Number of tiers every record carries.
    pub fn tier_count(&self) -> (n: usize)
        ensures
            n == self.tiers(),
    {
        self.tier_count
    }

    /// All records, in append order.
    pub fn records(&self) -> (r: &[EventRecord<S>])
        requires
            self.wf(),
        ensures
            r@.len() == self.events().len(),
            forall|i: int|
                0 <= i < r@.len() ==> {
                    &&& #[trigger] r@[i].events@ == self.events()[i]
                    &&& r@[i].state_id == self.state_ids()[i]
                    &&& r@[i].next_event@ == Seq::new(
                        self.tiers(),
                        |t: int| skip_pointer(self.events(), i, t),
                    )
                },
    {
        proof {
            self.lemma_records_view();
        }
        self.records.as_slice()
    }

    proof fn lemma_records_view(&self)
        requires
            self.wf(),
        ensures
            forall|i: int|
                0 <= i < self.records@.len() ==> #[trigger] self.records@[i].next_event@ == Seq::new(
                    self.tiers(),
                    |t: int| skip_pointer(self.events(), i, t),
                ),
    {
        assert forall|i: int| 0 <= i < self.records@.len() implies #[trigger] self.records@[i].next_event@
            =~= Seq::new(self.tiers(), |t: int| skip_pointer(self.events(), i, t)) by {
            assert forall|t: int| 0 <= t < self.tiers() implies self.records@[i].next_event@[t]
                == skip_pointer(self.events(), i, t) by {
                assert(self.records@[i].next_event@[t] == (if self.events()[i][t] {
                    next_event_from(self.events(), t, (i + 1) as nat)
                } else {
                    None
                }));
            }
        }
    }

    /// The record at `index`, if there is one.
    pub fn record(&self, index: EventId) -> (r: Option<&EventRecord<S>>)
        requires
            self.wf(),
        ensures
            index >= self.events().len() <==> r is None,
            r matches Some(rec) ==> {
                &&& rec.events@ == self.events()[index as int]
                &&& rec.state_id == self.state_ids()[index as int]
                &&& rec.next_event@ == Seq::new(
                    self.tiers(),
                    |t: int| skip_pointer(self.events(), index as int, t),
                )
            },
    {
        proof {
            self.lemma_records_view();
        }
        if index < self.records.len() {
            Some(&self.records[index])
        } else {
            None
        }
    }

    /// Same as [`EventLog::record`].
    pub fn get(&self, index: EventId) -> (r: Option<&EventRecord<S>>)
        requires
            self.wf(),
        ensures
            index >= self.events().len() <==> r is None,
            r matches Some(rec) ==> {
                &&& rec.events@ == self.events()[index as int]
                &&& rec.state_id == self.state_ids()[index as int]
                &&& rec.next_event@ == Seq::new(
                    self.tiers(),
                    |t: int| skip_pointer(self.events(), index as int, t),
                )
            },
    {
        self.record(index)
    }

    /// The next event at `tier` after the event record `index`.
    pub fn next_event(&self, index: EventId, tier: usize) -> (r: Option<EventId>)
        requires
            self.wf(),
        ensures
            r == (if index < self.events().len() && tier < self.tiers() {
                skip_pointer(self.events(), index as int, tier as int)
            } else {
                None
            }),
    {
        if index < self.records.len() && tier < self.records[index].next_event.len() {
            self.records[index].next_event[tier]
        } else {
            None
        }
    }

    /// The first event at `tier`.
    pub fn first_event(&self, tier: usize) -> (r: Option<EventId>)
        requires
            self.wf(),
        ensures
            r == (if tier < self.tiers() {
                next_event_from(self.events(), tier as int, 0)
            } else {
                None
            }),
    {
        if tier < self.first_by_tier.len() {
            self.first_by_tier[tier]
        } else {
            None
        }
    }

    /// Indices of every event at `tier`, in append order, found by following
    /// the skip pointers from the first event.
    pub fn event_indices(&self, tier: usize) -> (r: Vec<EventId>)
        requires
            self.wf(),
        ensures
            r@ == (if tier < self.tiers() {
                event_indices_from(self.events(), tier as int, 0)
            } else {
                Seq::empty()
            }),
    {
        let ghost ev = self.events();
        let ghost t = tier as int;
        let mut out: Vec<EventId> = Vec::new();
        if tier >= self.tier_count {
            return out;
        }
        let n = self.records.len();
        let mut cur = self.first_by_tier[tier];
        let ghost mut pos: nat = 0;
        loop
            invariant
                self.wf(),
                ev == self.events(),
                t == tier as int,
                tier < self.tier_count,
                n == ev.len(),
                pos <= n,
                cur == next_event_from(ev, t, pos),
                out@ + event_indices_from(ev, t, pos) == event_indices_from(ev, t, 0),
            ensures
                out@ == event_indices_from(ev, t, 0),
            decreases n - pos,
        {
            proof {
                lemma_indices_follow_next(ev, t, pos);
            }
            match cur {
                None => {
                    assert(out@ =~= out@ + Seq::<usize>::empty());
                    break;
                },
                Some(j) => {
                    proof {
                        lemma_next_some(ev, t, pos);
                    }
                    out.push(j);
                    proof {
                        pos = (j + 1) as nat;
                    }
                    assert(self.records@[j as int].next_event@[t] == next_event_from(ev, t, pos));
                    cur = self.records[j].next_event[tier];
                    assert(out@ + event_indices_from(ev, t, pos) =~= event_indices_from(ev, t, 0));
                },
            }
        }
        out
    }

    /// Create an empty log for `tier_count` tiers.
    pub fn new(tier_count: usize) -> (r: Result<Self>)
        ensures
            tier_count == 0 <==> r is Err,
            tier_count == 0 ==> r == Err::<Self, MetricChronoError>(MetricChronoError::EmptyLadder),
            r matches Ok(log) ==> {
                &&& log.wf()
                &&& log.tiers() == tier_count
                &&& log.events() == Seq::<Seq<bool>>::empty()
                &&& log.state_ids() == Seq::<S>::empty()
            },
    {
        if tier_count == 0 {
            return Err(MetricChronoError::EmptyLadder);
        }
        let first_by_tier = none_vec(tier_count);
        let last_by_tier = none_vec(tier_count);
        let log = EventLog { tier_count, records: Vec::new(), first_by_tier, last_by_tier };
        assert(log.events() =~= Seq::<Seq<bool>>::empty());
        assert(log.state_ids() =~= Seq::<S>::empty());
        Ok(log)
    }
}


proof fn lemma_next_push(ev: Seq<Seq<bool>>, e: Seq<bool>, t: int, start: nat)
    requires
        start <= ev.len(),
    ensures
        next_event_from(ev.push(e), t, start) == (match next_event_from(ev, t, start) {
            Some(j) => Some(j),
            None => if e[t] {
                Some(ev.len() as usize)
            } else {
                None
            },
        }),
    decreases ev.len() - start,
{
    let ev2 = ev.push(e);
    if start < ev.len() {
        assert(ev2[start as int] == ev[start as int]);
        lemma_next_push(ev, e, t, start + 1);
    } else {
        assert(ev2[start as int] == e);
        assert(next_event_from(ev2, t, start + 1) == None::<usize>);
    }
}

proof fn lemma_last_push_prefix(ev: Seq<Seq<bool>>, e: Seq<bool>, t: int, end: nat)
    requires
        end <= ev.len(),
    ensures
        last_event_before(ev.push(e), t, end) == last_event_before(ev, t, end),
    decreases end,
{
    if end > 0 {
        assert(ev.push(e)[end - 1] == ev[end - 1]);
        lemma_last_push_prefix(ev, e, t, (end - 1) as nat);
    }
}

proof fn lemma_no_events_next_none(ev: Seq<Seq<bool>>, t: int, start: nat)
    requires
        forall|j: int| start <= j < ev.len() ==> !#[trigger] ev[j][t],
    ensures
        next_event_from(ev, t, start) == None::<usize>,
    decreases ev.len() - start,
{
    if start < ev.len() {
        assert(!ev[start as int][t]);
        lemma_no_events_next_none(ev, t, start + 1);
    }
}

proof fn lemma_next_none_no_events(ev: Seq<Seq<bool>>, t: int, start: nat)
    requires
        next_event_from(ev, t, start) == None::<usize>,
    ensures
        forall|j: int| start <= j < ev.len() ==> !#[trigger] ev[j][t],
    decreases ev.len() - start,
{
    if start < ev.len() {
        lemma_next_none_no_events(ev, t, start + 1);
    }
}

proof fn lemma_next_some(ev: Seq<Seq<bool>>, t: int, start: nat)
    requires
        ev.len() <= usize::MAX,
        next_event_from(ev, t, start) is Some,
    ensures
        ({
            let j = next_event_from(ev, t, start)->0 as int;
            &&& start <= j < ev.len()
            &&& ev[j][t]
            &&& forall|m: int| start <= m < j ==> !#[trigger] ev[m][t]
        }),
    decreases ev.len() - start,
{
    if start < ev.len() && !ev[start as int][t] {
        lemma_next_some(ev, t, start + 1);
    }
}

proof fn lemma_last_none(ev: Seq<Seq<bool>>, t: int, end: nat)
    requires
        end <= ev.len(),
        last_event_before(ev, t, end) == None::<usize>,
    ensures
        forall|j: int| 0 <= j < end ==> !#[trigger] ev[j][t],
    decreases end,
{
    if end > 0 {
        lemma_last_none(ev, t, (end - 1) as nat);
    }
}

proof fn lemma_last_some(ev: Seq<Seq<bool>>, t: int, end: nat)
    requires
        end <= ev.len(),
        ev.len() <= usize::MAX,
        last_event_before(ev, t, end) is Some,
    ensures
        ({
            let l = last_event_before(ev, t, end)->0 as int;
            &&& 0 <= l < end
            &&& ev[l][t]
            &&& forall|m: int| l < m < end ==> !#[trigger] ev[m][t]
        }),
    decreases end,
{
    if !ev[end - 1][t] {
        lemma_last_some(ev, t, (end - 1) as nat);
    }
}

/// How appending one record changes the skip structure of one tier.
proof fn lemma_append_tier(ev: Seq<Seq<bool>>, e: Seq<bool>, t: int)
    requires
        ev.len() < usize::MAX,
    ensures
        forall|i: int|
            0 <= i < ev.len() ==> #[trigger] next_event_from(ev.push(e), t, (i + 1) as nat) == (
            match next_event_from(ev, t, (i + 1) as nat) {
                Some(j) => Some(j),
                None => if e[t] {
                    Some(ev.len() as usize)
                } else {
                    None
                },
            }),
        next_event_from(ev.push(e), t, 0) == (match next_event_from(ev, t, 0) {
            Some(j) => Some(j),
            None => if e[t] {
                Some(ev.len() as usize)
            } else {
                None
            },
        }),
        next_event_from(ev.push(e), t, (ev.len() + 1) as nat) == None::<usize>,
        last_event_before(ev.push(e), t, ev.len() + 1) == (if e[t] {
            Some(ev.len() as usize)
        } else {
            last_event_before(ev, t, ev.len())
        }),
        last_event_before(ev, t, ev.len()) is None ==> next_event_from(ev, t, 0) is None
            && forall|i: int| 0 <= i < ev.len() ==> !#[trigger] ev[i][t],
        last_event_before(ev, t, ev.len()) matches Some(l) ==> {
            &&& l < ev.len()
            &&& ev[l as int][t]
            &&& next_event_from(ev, t, (l + 1) as nat) is None
            &&& next_event_from(ev, t, 0) is Some
            &&& forall|i: int|
                0 <= i < ev.len() && i != l && #[trigger] ev[i][t] ==> next_event_from(
                    ev,
                    t,
                    (i + 1) as nat,
                ) is Some
        },
{
    assert forall|i: int| 0 <= i < ev.len() implies #[trigger] next_event_from(
        ev.push(e),
        t,
        (i + 1) as nat,
    ) == (match next_event_from(ev, t, (i + 1) as nat) {
        Some(j) => Some(j),
        None => if e[t] {
            Some(ev.len() as usize)
        } else {
            None
        },
    }) by {
        lemma_next_push(ev, e, t, (i + 1) as nat);
    }
    lemma_next_push(ev, e, t, 0);
    lemma_last_push_prefix(ev, e, t, ev.len());
    assert(ev.push(e)[ev.len() as int] == e);
    match last_event_before(ev, t, ev.len()) {
        None => {
            lemma_last_none(ev, t, ev.len());
            lemma_no_events_next_none(ev, t, 0);
        },
        Some(l) => {
            lemma_last_some(ev, t, ev.len());
            lemma_no_events_next_none(ev, t, (l + 1) as nat);
            if next_event_from(ev, t, 0) is None {
                lemma_next_none_no_events(ev, t, 0);
                assert(!ev[l as int][t]);
            }
            assert forall|i: int|
                0 <= i < ev.len() && i != l && #[trigger] ev[i][t] implies next_event_from(
                ev,
                t,
                (i + 1) as nat,
            ) is Some by {
                if next_event_from(ev, t, (i + 1) as nat) is None {
                    lemma_next_none_no_events(ev, t, (i + 1) as nat);
                    if i < l {
                        assert(!ev[l as int][t]);
                    } else {
                        assert(!ev[i][t]);
                    }
                }
            }
        },
    }
}

proof fn lemma_indices_follow_next(ev: Seq<Seq<bool>>, t: int, start: nat)
    requires
        ev.len() <= usize::MAX,
    ensures
        event_indices_from(ev, t, start) == (match next_event_from(ev, t, start) {
            None => Seq::<usize>::empty(),
            Some(j) => seq![j] + event_indices_from(ev, t, (j + 1) as nat),
        }),
    decreases ev.len() - start,
{
    if start < ev.len() && !ev[start as int][t] {
        lemma_indices_follow_next(ev, t, start + 1);
    }
}

/// Listing the events of a tier from `start` on gives exactly the records at
/// or after `start` with an event at that tier, in strictly increasing order.
pub proof fn lemma_event_indices_exact(events: Seq<Seq<bool>>, tier: int, start: nat)
    requires
        events.len() <= usize::MAX,
    ensures
        forall|x: usize|
            event_indices_from(events, tier, start).contains(x) <==> (start <= x < events.len()
                && events[x as int][tier]),
        forall|a: int, b: int|
            0 <= a < b < event_indices_from(events, tier, start).len() ==> #[trigger] event_indices_from(
                events,
                tier,
                start,
            )[a] < #[trigger] event_indices_from(events, tier, start)[b],
    decreases events.len() - start,
{
    if start < events.len() {
        lemma_event_indices_exact(events, tier, start + 1);
        let rest = event_indices_from(events, tier, start + 1);
        let all = event_indices_from(events, tier, start);
        if events[start as int][tier] {
            assert(all == seq![start as usize] + rest);
            assert forall|x: usize| all.contains(x) <==> (start <= x < events.len()
                && events[x as int][tier]) by {
                if x == start {
                    assert(all[0] == x);
                } else {
                    if all.contains(x) {
                        let k = choose|k: int| 0 <= k < all.len() && all[k] == x;
                        assert(k != 0);
                        assert(rest[k - 1] == x);
                        assert(rest.contains(x));
                    }
                    if start < x < events.len() && events[x as int][tier] {
                        assert(rest.contains(x));
                        let k = choose|k: int| 0 <= k < rest.len() && rest[k] == x;
                        assert(all[k + 1] == x);
                        assert(all.contains(x));
                    }
                }
            }
            assert forall|a: int, b: int|
                0 <= a < b < all.len() implies #[trigger] all[a] < #[trigger] all[b] by {
                if a == 0 {
                    assert(rest.contains(all[b]));
                } else {
                    assert(all[a] == rest[a - 1] && all[b] == rest[b - 1]);
                }
            }
        } else {
            assert(all == rest);
        }
    }
}

/// The skip pointer of an event record leads to the very next record with an
/// event at the same tier, skipping only records without one; a record whose
/// pointer is empty has no later event at that tier.
pub proof fn lemma_skip_pointer_is_next_event(events: Seq<Seq<bool>>, i: int, tier: int)
    requires
        events.len() <= usize::MAX,
        0 <= i < events.len(),
        events[i][tier],
    ensures
        skip_pointer(events, i, tier) matches Some(j) ==> {
            &&& i < j < events.len()
            &&& events[j as int][tier]
            &&& forall|m: int| i < m < j ==> !#[trigger] events[m][tier]
        },
        skip_pointer(events, i, tier) is None ==> forall|m: int|
            i < m < events.len() ==> !#[trigger] events[m][tier],
{
    if next_event_from(events, tier, (i + 1) as nat) is Some {
        lemma_next_some(events, tier, (i + 1) as nat);
    } else {
        lemma_next_none_no_events(events, tier, (i + 1) as nat);
    }
}

fn none_vec(n: usize) -> (v: Vec<Option<usize>>)
    ensures
        v@ == Seq::new(n as nat, |_i: int| None::<usize>),
{
    let mut v: Vec<Option<usize>> = Vec::new();
    let mut i: usize = 0;
    while i < n
        invariant
            i <= n,
            v@ == Seq::new(i as nat, |_i: int| None::<usize>),
        decreases n - i,
    {
        v.push(None);
        i = i + 1;
        assert(v@ =~= Seq::new(i as nat, |_i: int| None::<usize>));
    }
    v
}

} // verus!

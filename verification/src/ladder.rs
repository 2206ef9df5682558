use vstd::prelude::*;

use crate::error::{ensure_output, ensure_shape, MetricChronoError, Result};

verus! {

const MAX_PROMOTION_DEPTH: usize = 1000;

/// Tick normalization modes.
#[derive(Clone, Copy, Debug, Eq, PartialEq, Structural)]
pub enum Normalization {
    Unchanged,
    UnitMax,
    Tanh,
}

/// `x + 1`, staying at `u64::MAX` instead of overflowing.
pub open spec fn sat_inc(x: u64) -> u64 {
    if x == u64::MAX {
        x
    } else {
        (x + 1) as u64
    }
}

/// The event flags a step sees: the given ones, or none at all.
pub open spec fn step_events(flags: Option<&[bool]>, len: nat) -> Seq<bool> {
    match flags {
        Some(f) => f@,
        None => Seq::new(len, |_i: int| false),
    }
}

/// Counters after the first phase of a step: every tier without an event
/// advances by one.
pub open spec fn advanced(counters: Seq<u64>, events: Seq<bool>) -> Seq<u64> {
    Seq::new(counters.len(), |k: int| if events[k] { counters[k] } else { sat_inc(counters[k]) })
}

/// Whether tier `k` receives a carry from tier `k - 1` in one cascading pass
/// over `counters`.
pub open spec fn carry_in(counters: Seq<u64>, quotas: Seq<u64>, k: nat) -> bool
    decreases k,
{
    if k == 0 {
        false
    } else {
        let prev = (k - 1) as nat;
        (if carry_in(counters, quotas, prev) {
            sat_inc(counters[prev as int])
        } else {
            counters[prev as int]
        }) >= quotas[prev as int]
    }
}

/// Value of tier `k` once the carry from below has been added.
pub open spec fn bumped(counters: Seq<u64>, quotas: Seq<u64>, k: nat) -> u64 {
    if carry_in(counters, quotas, k) {
        sat_inc(counters[k as int])
    } else {
        counters[k as int]
    }
}

/// Whether tier `k` reaches its quota during the cascading pass.
pub open spec fn promoted(counters: Seq<u64>, quotas: Seq<u64>, k: nat) -> bool {
    bumped(counters, quotas, k) >= quotas[k as int]
}

/// Counters after one cascading pass: promoted tiers restart from zero.
pub open spec fn cascaded(counters: Seq<u64>, quotas: Seq<u64>) -> Seq<u64> {
    Seq::new(
        counters.len(),
        |k: int|
            if promoted(counters, quotas, k as nat) {
                0u64
            } else {
                bumped(counters, quotas, k as nat)
            },
    )
}

/// Promotion flags of one cascading pass.
pub open spec fn promotions(counters: Seq<u64>, quotas: Seq<u64>) -> Seq<bool> {
    Seq::new(counters.len(), |k: int| promoted(counters, quotas, k as nat))
}

/// Counters after a whole step with the given events.
pub open spec fn stepped_counters(quotas: Seq<u64>, counters: Seq<u64>, events: Seq<bool>) -> Seq<
    u64,
> {
    let c = cascaded(advanced(counters, events), quotas);
    Seq::new(counters.len(), |k: int| if events[k] { 0u64 } else { c[k] })
}

/// Promotion flags written by a whole step with the given events.
pub open spec fn stepped_promotions(
    quotas: Seq<u64>,
    counters: Seq<u64>,
    events: Seq<bool>,
) -> Seq<bool> {
    promotions(advanced(counters, events), quotas)
}

/// Every counter sits strictly below its tier's quota.
pub open spec fn below_quotas(counters: Seq<u64>, quotas: Seq<u64>) -> bool {
    &&& counters.len() == quotas.len()
    &&& forall|k: int| 0 <= k < counters.len() ==> #[trigger] counters[k] < quotas[k]
}

proof fn lemma_no_carry_below_quotas(counters: Seq<u64>, quotas: Seq<u64>, k: nat)
    requires
        below_quotas(counters, quotas),
        k <= counters.len(),
    ensures
        !carry_in(counters, quotas, k),
    decreases k,
{
    if k > 0 {
        lemma_no_carry_below_quotas(counters, quotas, (k - 1) as nat);
        assert(counters[k - 1] < quotas[k - 1]);
    }
}

/// A cascading pass over counters that are all below their quotas changes
/// nothing and promotes nothing.
proof fn lemma_cascade_idle(counters: Seq<u64>, quotas: Seq<u64>)
    requires
        below_quotas(counters, quotas),
    ensures
        cascaded(counters, quotas) == counters,
        forall|k: int| 0 <= k < counters.len() ==> !#[trigger] promoted(counters, quotas, k as nat),
{
    assert forall|k: int| 0 <= k < counters.len() implies !promoted(counters, quotas, k as nat)
        && cascaded(counters, quotas)[k] == counters[k] by {
        lemma_no_carry_below_quotas(counters, quotas, k as nat);
        assert(counters[k] < quotas[k]);
    }
    assert(cascaded(counters, quotas) =~= counters);
}

/// After one cascading pass every counter sits below its quota.
proof fn lemma_cascade_below(counters: Seq<u64>, quotas: Seq<u64>)
    requires
        counters.len() == quotas.len(),
        forall|k: int| 0 <= k < quotas.len() ==> #[trigger] quotas[k] > 0,
    ensures
        below_quotas(cascaded(counters, quotas), quotas),
{
    assert forall|k: int| 0 <= k < counters.len() implies #[trigger] cascaded(
        counters,
        quotas,
    )[k] < quotas[k] by {
        assert(quotas[k] > 0);
    }
}

/// Basic promotion/carry counter for ladder events.
#[derive(Clone, Debug, Eq, PartialEq)]
pub struct PromotionCounter {
    quotas: Vec<u64>,
    counters: Vec<u64>,
}

impl PromotionCounter {
    /// Per-tier promotion quotas.
    pub closed spec fn quotas_view(&self) -> Seq<u64> {
        self.quotas@
    }

    /// Per-tier counters.
    pub closed spec fn counters_view(&self) -> Seq<u64> {
        self.counters@
    }

    /// Well-formedness: one positive quota per tier, at least one tier, and
    /// every counter below its quota.
    pub open spec fn wf(&self) -> bool {
        &&& self.quotas_view().len() > 0
        &&& forall|k: int| 0 <= k < self.quotas_view().len() ==> #[trigger] self.quotas_view()[k] > 0
        &&& below_quotas(self.counters_view(), self.quotas_view())
    }

    /// Build a counter with all counters at zero.
    pub fn new(quotas: Vec<u64>) -> (r: Result<Self>)
        ensures
            quotas@.len() == 0 ==> r == Err::<Self, MetricChronoError>(
                MetricChronoError::EmptyLadder,
            ),
            quotas@.len() > 0 && quotas@.contains(0u64) ==> r == Err::<Self, MetricChronoError>(
                MetricChronoError::InvalidArgument("promotion quotas must be > 0"),
            ),
            r is Ok <==> quotas@.len() > 0 && !quotas@.contains(0u64),
            r matches Ok(c) ==> {
                &&& c.wf()
                &&& c.quotas_view() == quotas@
                &&& c.counters_view() == Seq::new(quotas@.len(), |_k: int| 0u64)
            },
    {
        if quotas.len() == 0 {
            return Err(MetricChronoError::EmptyLadder);
        }
        let mut i: usize = 0;
        while i < quotas.len()
            invariant
                i <= quotas@.len(),
                forall|j: int| 0 <= j < i ==> quotas@[j] != 0,
            decreases quotas@.len() - i,
        {
            if quotas[i] == 0 {
                assert(quotas@[i as int] == 0u64);
                return Err(MetricChronoError::InvalidArgument("promotion quotas must be > 0"));
            }
            i = i + 1;
        }
        let mut counters: Vec<u64> = Vec::new();
        let mut j: usize = 0;
        while j < quotas.len()
            invariant
                j <= quotas@.len(),
                counters@ == Seq::new(j as nat, |_k: int| 0u64),
            decreases quotas@.len() - j,
        {
            counters.push(0);
            j = j + 1;
            assert(counters@ =~= Seq::new(j as nat, |_k: int| 0u64));
        }
        let c = PromotionCounter { quotas, counters };
        assert(forall|k: int| 0 <= k < c.quotas@.len() ==> c.quotas@[k] > 0);
        Ok(c)
    }

    /// Number of tiers.
    pub fn len(&self) -> (n: usize)
        ensures
            n == self.quotas_view().len(),
    {
        self.quotas.len()
    }

    /// Whether the counter has no tiers (never the case for a built counter).
    pub fn is_empty(&self) -> (b: bool)
        ensures
            b == (self.quotas_view().len() == 0),
    {
        self.quotas.len() == 0
    }

    /// Per-tier promotion quotas.
    pub fn quotas(&self) -> (q: &[u64])
        ensures
            q@ == self.quotas_view(),
    {
        self.quotas.as_slice()
    }

    /// Per-tier counters.
    pub fn counters(&self) -> (c: &[u64])
        ensures
            c@ == self.counters_view(),
    {
        self.counters.as_slice()
    }

    /// Restart every counter from zero.
    pub fn reset(&mut self)
        requires
            old(self).wf(),
        ensures
            final(self).wf(),
            final(self).quotas_view() == old(self).quotas_view(),
            final(self).counters_view() == Seq::new(old(self).counters_view().len(), |_k: int| 0u64),
    {
        let n = self.counters.len();
        let mut i: usize = 0;
        while i < n
            invariant
                n == self.counters@.len(),
                self.quotas@ == old(self).quotas@,
                self.counters@.len() == old(self).counters@.len(),
                i <= n,
                forall|j: int| 0 <= j < i ==> self.counters@[j] == 0u64,
            decreases n - i,
        {
            self.counters[i] = 0;
            i = i + 1;
        }
        assert(self.counters@ =~= Seq::new(old(self).counters@.len(), |_k: int| 0u64));
    }

    /// One cascading pass: every tier at or above its quota restarts from
    /// zero, raises its promotion flag and carries one into the next tier.
    fn cascade_pass(&mut self, out: &mut [bool]) -> (changed: bool)
        requires
            old(self).quotas@.len() == old(self).counters@.len(),
            old(out)@.len() >= old(self).quotas@.len(),
        ensures
            final(self).quotas@ == old(self).quotas@,
            final(self).counters@ == cascaded(old(self).counters@, old(self).quotas@),
            final(out)@.len() == old(out)@.len(),
            forall|k: int|
                0 <= k < old(self).quotas@.len() ==> #[trigger] final(out)@[k] == (promoted(
                    old(self).counters@,
                    old(self).quotas@,
                    k as nat,
                ) || old(out)@[k]),
            forall|k: int| old(self).quotas@.len() <= k < old(out)@.len() ==> #[trigger] final(out)@[k] == old(out)@[k],
            changed == exists|k: int|
                0 <= k < old(self).quotas@.len() && #[trigger] promoted(
                    old(self).counters@,
                    old(self).quotas@,
                    k as nat,
                ),
    {
        let ghost c = self.counters@;
        let ghost q = self.quotas@;
        let len = self.quotas.len();
        let mut changed = false;
        let mut k: usize = 0;
        while k < len
            invariant
                len == q.len(),
                c.len() == q.len(),
                self.quotas@ == q,
                self.counters@.len() == len,
                out@.len() == old(out)@.len(),
                old(out)@.len() >= len,
                k <= len,
                forall|j: int| 0 <= j < k ==> #[trigger] self.counters@[j] == cascaded(c, q)[j],
                k < len ==> self.counters@[k as int] == bumped(c, q, k as nat),
                forall|j: int| k < j < len ==> #[trigger] self.counters@[j] == c[j],
                forall|j: int|
                    0 <= j < k ==> #[trigger] out@[j] == (promoted(c, q, j as nat) || old(
                        out,
                    )@[j]),
                forall|j: int| k <= j < out@.len() ==> #[trigger] out@[j] == old(out)@[j],
                changed == exists|j: int| 0 <= j < k && #[trigger] promoted(c, q, j as nat),
            decreases len - k,
        {
            if self.counters[k] < self.quotas[k] {
                assert(!promoted(c, q, k as nat));
                assert(!carry_in(c, q, (k + 1) as nat));
                k = k + 1;
                continue;
            }
            assert(promoted(c, q, k as nat));
            self.counters[k] = 0;
            out[k] = true;
            if k + 1 < len {
                let next = self.counters[k + 1].saturating_add(1);
                self.counters[k + 1] = next;
                assert(carry_in(c, q, (k + 1) as nat));
            }
            changed = true;
            k = k + 1;
        }
        assert(self.counters@ =~= cascaded(c, q));
        changed
    }

    /// Advance counters and write promotion flags into `out`.
    ///
    /// Tiers without an event advance by one; every tier that reaches its
    /// quota restarts from zero, raises its flag and carries one into the
    /// next tier; tiers with an event restart from zero.
    pub fn step(&mut self, event_flags: Option<&[bool]>, out: &mut [bool]) -> (r: Result<()>)
        requires
            old(self).wf(),
        ensures
            final(self).wf(),
            old(out)@.len() < old(self).quotas_view().len() ==> r == Err::<(), MetricChronoError>(
                MetricChronoError::OutputTooSmall {
                    needed: old(self).quotas_view().len() as usize,
                    actual: old(out)@.len() as usize,
                },
            ),
            old(out)@.len() >= old(self).quotas_view().len() && event_flags is Some
                && event_flags->0@.len() != old(self).quotas_view().len() ==> r == Err::<
                (),
                MetricChronoError,
            >(
                MetricChronoError::ShapeMismatch {
                    expected: old(self).quotas_view().len() as usize,
                    actual: event_flags->0@.len() as usize,
                    context: "event flags",
                },
            ),
            r is Ok <==> old(out)@.len() >= old(self).quotas_view().len() && (event_flags is Some
                ==> event_flags->0@.len() == old(self).quotas_view().len()),
            r is Err ==> *final(self) == *old(self) && final(out)@ == old(out)@,
            r is Ok ==> {
                let q = old(self).quotas_view();
                let e = step_events(event_flags, q.len());
                &&& final(self).quotas_view() == q
                &&& final(self).counters_view() == stepped_counters(
                    q,
                    old(self).counters_view(),
                    e,
                )
                &&& final(out)@ == stepped_promotions(q, old(self).counters_view(), e) + old(
                    out,
                )@.skip(q.len() as int)
            },
            r is Ok ==> forall|k: int|
                #![trigger old(self).counters_view()[k]]
                0 <= k < old(self).quotas_view().len() ==> {
                    let event = event_flags matches Some(f) && f@[k];
                    let advance: int = if event {
                        0
                    } else {
                        1
                    };
                    let carry: int = if k > 0 && final(out)@[k - 1] {
                        1
                    } else {
                        0
                    };
                    let total = old(self).counters_view()[k] + advance + carry;
                    &&& final(out)@[k] == (total >= old(self).quotas_view()[k])
                    &&& final(self).counters_view()[k] == (if event || final(out)@[k] {
                        0
                    } else {
                        total
                    })
                },
    {
        let len = self.quotas.len();
        ensure_output(len, out.len())?;
        match event_flags {
            Some(flags) => {
                ensure_shape(len, flags.len(), "event flags")?;
            },
            None => {},
        }
        let ghost q = self.quotas@;
        let ghost c0 = self.counters@;
        let ghost e = step_events(event_flags, len as nat);
        let ghost c1 = advanced(c0, e);

        let mut i: usize = 0;
        while i < len
            invariant
                len == q.len(),
                out@.len() == old(out)@.len(),
                old(out)@.len() >= len,
                i <= len,
                forall|j: int| 0 <= j < i ==> out@[j] == false,
                forall|j: int| i <= j < out@.len() ==> out@[j] == old(out)@[j],
            decreases len - i,
        {
            out[i] = false;
            i = i + 1;
        }

        let mut k: usize = 0;
        while k < len
            invariant
                len == q.len(),
                c0.len() == len,
                e.len() == len,
                self.quotas@ == q,
                self.counters@.len() == len,
                event_flags is Some ==> event_flags->0@.len() == len,
                e == step_events(event_flags, len as nat),
                c1 == advanced(c0, e),
                k <= len,
                forall|j: int| 0 <= j < k ==> #[trigger] self.counters@[j] == c1[j],
                forall|j: int| k <= j < len ==> #[trigger] self.counters@[j] == c0[j],
            decreases len - k,
        {
            let event = match event_flags {
                Some(flags) => flags[k],
                None => false,
            };
            assert(event == e[k as int]);
            if !event {
                let next = self.counters[k].saturating_add(1);
                self.counters[k] = next;
            }
            k = k + 1;
        }
        assert(self.counters@ =~= c1);

        let ghost out1 = out@;
        let mut depth: usize = 0;
        loop
            invariant_except_break
                depth <= 1,
                depth == 0 ==> self.counters@ == c1 && out@ == out1,
                depth == 1 ==> {
                    &&& self.counters@ == cascaded(c1, q)
                    &&& below_quotas(self.counters@, q)
                    &&& forall|j: int|
                        0 <= j < len ==> #[trigger] out@[j] == (promoted(c1, q, j as nat)
                            || out1[j])
                    &&& forall|j: int| len <= j < out@.len() ==> #[trigger] out@[j] == out1[j]
                },
            invariant
                len == q.len(),
                self.quotas@ == q,
                c1.len() == len,
                out1.len() == out@.len(),
                out@.len() >= len,
                forall|j: int| 0 <= j < q.len() ==> #[trigger] q[j] > 0,
            ensures
                self.quotas@ == q,
                self.counters@ == cascaded(c1, q),
                out@.len() == out1.len(),
                forall|j: int|
                    0 <= j < len ==> #[trigger] out@[j] == (promoted(c1, q, j as nat) || out1[j]),
                forall|j: int| len <= j < out@.len() ==> #[trigger] out@[j] == out1[j],
            decreases 2 - depth,
        {
            let ghost before_counters = self.counters@;
            let changed = self.cascade_pass(out);
            if depth == 1 {
                proof {
                    lemma_cascade_idle(before_counters, q);
                }
                assert(!changed);
            }
            if !changed {
                if depth == 0 {
                    assert forall|j: int| 0 <= j < len implies #[trigger] out@[j] == (promoted(
                        c1,
                        q,
                        j as nat,
                    ) || out1[j]) by {
                        assert(!promoted(c1, q, j as nat));
                    }
                } else {
                    assert forall|j: int| 0 <= j < len implies #[trigger] out@[j] == (promoted(
                        c1,
                        q,
                        j as nat,
                    ) || out1[j]) by {
                        assert(!promoted(before_counters, q, j as nat));
                    }
                }
                break;
            }
            proof {
                lemma_cascade_below(c1, q);
            }
            depth = depth + 1;
            if depth > MAX_PROMOTION_DEPTH {
                return Err(MetricChronoError::InvalidArgument("promotion depth exceeded"));
            }
        }

        let ghost c2 = self.counters@;
        let mut m: usize = 0;
        while m < len
            invariant
                len == q.len(),
                self.quotas@ == q,
                self.counters@.len() == len,
                c2.len() == len,
                e.len() == len,
                event_flags is Some ==> event_flags->0@.len() == len,
                e == step_events(event_flags, len as nat),
                m <= len,
                forall|j: int|
                    0 <= j < m ==> #[trigger] self.counters@[j] == (if e[j] {
                        0u64
                    } else {
                        c2[j]
                    }),
                forall|j: int| m <= j < len ==> #[trigger] self.counters@[j] == c2[j],
            decreases len - m,
        {
            match event_flags {
                Some(flags) => {
                    if flags[m] {
                        self.counters[m] = 0;
                    }
                },
                None => {},
            }
            m = m + 1;
        }
        proof {
            assert(self.counters@ =~= stepped_counters(q, c0, e));
            assert(out@ =~= stepped_promotions(q, c0, e) + old(out)@.skip(len as int));
            lemma_cascade_below(c1, q);
            assert forall|j: int| #![trigger c0[j]] 0 <= j < len implies {
                let event = event_flags matches Some(f) && f@[j];
                let advance: int = if event {
                    0
                } else {
                    1
                };
                let carry: int = if j > 0 && out@[j - 1] {
                    1
                } else {
                    0
                };
                let total = c0[j] + advance + carry;
                &&& out@[j] == (total >= q[j])
                &&& self.counters@[j] == (if event || out@[j] {
                    0
                } else {
                    total
                })
            } by {
                lemma_step_promotion_rule(q, c0, e, j);
                assert(e[j] == (event_flags matches Some(f) && f@[j]));
                assert(out@[j] == stepped_promotions(q, c0, e)[j]);
                if j > 0 {
                    assert(out@[j - 1] == stepped_promotions(q, c0, e)[j - 1]);
                }
            }
            assert(below_quotas(self.counters@, q)) by {
                assert forall|j: int| 0 <= j < len implies #[trigger] self.counters@[j] < q[j] by {
                    assert(cascaded(c1, q)[j] < q[j]);
                }
            }
        }
        Ok(())
    }
}


/// Every step leaves each counter strictly below its tier's quota.
pub proof fn lemma_step_keeps_counters_below_quotas(
    quotas: Seq<u64>,
    counters: Seq<u64>,
    events: Seq<bool>,
)
    requires
        counters.len() == quotas.len(),
        events.len() == quotas.len(),
        forall|k: int| 0 <= k < quotas.len() ==> #[trigger] quotas[k] > 0,
    ensures
        below_quotas(stepped_counters(quotas, counters, events), quotas),
{
    let c1 = advanced(counters, events);
    lemma_cascade_below(c1, quotas);
    let s = stepped_counters(quotas, counters, events);
    assert forall|k: int| 0 <= k < s.len() implies #[trigger] s[k] < quotas[k] by {
        assert(cascaded(c1, quotas)[k] < quotas[k]);
    }
}

/// How one step decides each tier. Tier `k` adds one unless it saw an event,
/// and one more when tier `k - 1` promoted in this step; it promotes exactly
/// when that total reaches its quota, whether or not it saw an event, and so
/// carries into tier `k + 1`. It ends the step at zero when it saw an event or
/// promoted, and at that total otherwise.
pub proof fn lemma_step_promotion_rule(
    quotas: Seq<u64>,
    counters: Seq<u64>,
    events: Seq<bool>,
    k: int,
)
    requires
        events.len() == quotas.len(),
        below_quotas(counters, quotas),
        0 <= k < quotas.len(),
    ensures
        ({
            let promoted_here = stepped_promotions(quotas, counters, events);
            let advance: int = if events[k] {
                0
            } else {
                1
            };
            let carry: int = if k > 0 && promoted_here[k - 1] {
                1
            } else {
                0
            };
            let total = counters[k] + advance + carry;
            &&& promoted_here.len() == quotas.len()
            &&& stepped_counters(quotas, counters, events).len() == quotas.len()
            &&& promoted_here[k] == (total >= quotas[k])
            &&& stepped_counters(quotas, counters, events)[k] == (if events[k] || promoted_here[k] {
                0
            } else {
                total
            })
        }),
{
    let c1 = advanced(counters, events);
    assert(counters[k] < quotas[k]);
    assert(c1[k] == counters[k] + (if events[k] {
        0int
    } else {
        1int
    }));
    if k > 0 {
        assert(carry_in(c1, quotas, k as nat) == promoted(c1, quotas, (k - 1) as nat));
    }
}

/// A tier that saw an event ends the step with its counter at zero.
pub proof fn lemma_event_resets_tier(
    quotas: Seq<u64>,
    counters: Seq<u64>,
    events: Seq<bool>,
    k: int,
)
    requires
        counters.len() == quotas.len(),
        events.len() == quotas.len(),
        0 <= k < quotas.len(),
        events[k],
    ensures
        stepped_counters(quotas, counters, events)[k] == 0,
{
}

/// The finest tier counts quiet steps modulo its quota and promotes exactly
/// when that count wraps around.
pub proof fn lemma_first_tier_counts_modulo_quota(
    quotas: Seq<u64>,
    counters: Seq<u64>,
    events: Seq<bool>,
)
    requires
        quotas.len() > 0,
        counters.len() == quotas.len(),
        events.len() == quotas.len(),
        forall|k: int| 0 <= k < quotas.len() ==> #[trigger] quotas[k] > 0,
        below_quotas(counters, quotas),
        !events[0],
    ensures
        stepped_counters(quotas, counters, events)[0] == (counters[0] + 1) % (quotas[0] as int),
        stepped_promotions(quotas, counters, events)[0] == (counters[0] + 1 == quotas[0]),
{
    assert(counters[0] < quotas[0]);
    let c1 = advanced(counters, events);
    assert(c1[0] == counters[0] + 1);
    assert(!carry_in(c1, quotas, 0));
    if counters[0] + 1 == quotas[0] {
        assert((counters[0] + 1) % (quotas[0] as int) == 0) by (nonlinear_arith)
            requires
                counters[0] + 1 == quotas[0],
                quotas[0] > 0,
        ;
    } else {
        assert((counters[0] + 1) % (quotas[0] as int) == counters[0] + 1) by (nonlinear_arith)
            requires
                counters[0] + 1 < quotas[0],
                0 <= counters[0],
        ;
    }
}


/// A step given no event flags is a step in which no tier saw an event.
pub proof fn lemma_missing_flags_mean_no_events(len: nat)
    ensures
        step_events(None, len) == Seq::new(len, |_k: int| false),
        forall|k: int| 0 <= k < len ==> !#[trigger] step_events(None, len)[k],
{
}

} // verus!

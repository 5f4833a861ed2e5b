//! Throttles: how often a rule may fire.

use crate::ast::Throttle;
use crate::time::{elapsed, Duration, Timestamp};
use std::collections::VecDeque;
use vstd::prelude::*;

verus! {

/// The times without the leading ones that are more than `per` ago.
pub open spec fn fresh_times(times: Seq<Timestamp>, now: Timestamp, per: Duration) -> Seq<Timestamp>
    decreases times.len(),
{
    if times.len() > 0 && elapsed(now, times[0]) > per.nanos {
        fresh_times(times.drop_first(), now, per)
    } else {
        times
    }
}

/// A throttle and the times that it has recorded.
pub struct ThrottleView {
    pub fires: Seq<Timestamp>,
    pub limit: Throttle,
}

impl ThrottleView {
    /// A throttle that has recorded nothing.
    pub open spec fn initial(limit: Throttle) -> ThrottleView {
        ThrottleView { fires: Seq::empty(), limit }
    }

    /// The recorded times that still count.
    pub open spec fn live(self, now: Timestamp) -> Seq<Timestamp> {
        fresh_times(self.fires, now, self.limit.per)
    }

    /// A firing is allowed.
    pub open spec fn allows(self, now: Timestamp) -> bool {
        self.live(now).len() < self.limit.max
    }

    /// After a request to fire, which is recorded where it is allowed.
    pub open spec fn after(self, now: Timestamp) -> ThrottleView {
        ThrottleView {
            fires: if self.allows(now) {
                self.live(now).push(now)
            } else {
                self.live(now)
            },
            limit: self.limit,
        }
    }
}

/// The recent firings of one rule that has a throttle.
pub struct ThrottleState {
    fires: VecDeque<Timestamp>,
    cap: u32,
    per: Duration,
}

impl View for ThrottleState {
    type V = ThrottleView;

    closed spec fn view(&self) -> ThrottleView {
        ThrottleView { fires: self.fires@, limit: Throttle { max: self.cap, per: self.per } }
    }
}

impl ThrottleState {
    pub fn from(t: &Throttle) -> (s: ThrottleState)
        ensures
            s@ == ThrottleView::initial(*t),
    {
        ThrottleState { fires: VecDeque::new(), cap: t.max, per: t.per }
    }

    /// Whether a firing is allowed now; it is recorded where it is.
    pub fn allow_and_record(&mut self, now: Timestamp) -> (allowed: bool)
        ensures
            allowed == old(self)@.allows(now),
            final(self)@ == old(self)@.after(now),
    {
        while self.fires.len() > 0 && now.duration_since(self.fires[0]).nanos > self.per.nanos
            invariant
                self.cap == old(self).cap,
                self.per == old(self).per,
                fresh_times(self.fires@, now, self.per) == fresh_times(
                    old(self).fires@,
                    now,
                    old(self).per,
                ),
            decreases self.fires@.len(),
        {
            let ghost before = self.fires@;
            self.fires.pop_front();
            assert(self.fires@ =~= before.drop_first());
        }
        if (self.fires.len() as u64) < self.cap as u64 {
            self.fires.push_back(now);
            true
        } else {
            false
        }
    }
}

// ---------------------------------------------------------------------
// Any number of requests
// ---------------------------------------------------------------------

/// Times in order.
pub open spec fn ascending(times: Seq<Timestamp>) -> bool {
    forall|j: int, k: int|
        0 <= j < k < times.len() ==> (#[trigger] times[j]).nanos <= (#[trigger] times[k]).nanos
}

/// The throttle after requests at the given times.
pub open spec fn after_requests(limit: Throttle, requests: Seq<Timestamp>) -> ThrottleView
    decreases requests.len(),
{
    if requests.len() == 0 {
        ThrottleView::initial(limit)
    } else {
        after_requests(limit, requests.drop_last()).after(requests.last())
    }
}

/// The times of the requests that are allowed.
pub open spec fn granted(limit: Throttle, requests: Seq<Timestamp>) -> Seq<Timestamp>
    decreases requests.len(),
{
    if requests.len() == 0 {
        Seq::empty()
    } else {
        let before = granted(limit, requests.drop_last());
        if after_requests(limit, requests.drop_last()).allows(requests.last()) {
            before.push(requests.last())
        } else {
            before
        }
    }
}

/// Dropping the last time keeps the order.
pub proof fn prefix_ascends(times: Seq<Timestamp>)
    requires
        times.len() > 0,
        ascending(times),
    ensures
        ascending(times.drop_last()),
        forall|k: int| 0 <= k < times.len() ==> (#[trigger] times[k]).nanos <= times.last().nanos,
{
    let rest = times.drop_last();
    assert forall|j: int, k: int| 0 <= j < k < rest.len() implies (#[trigger] rest[j]).nanos <= (
    #[trigger] rest[k]).nanos by {
        assert(times[j].nanos <= times[k].nanos);
    }
    assert forall|k: int| 0 <= k < times.len() implies (#[trigger] times[k]).nanos
        <= times.last().nanos by {
        if k < times.len() - 1 {
            assert(times[k].nanos <= times[times.len() - 1].nanos);
        }
    }
}

/// Dropping leading times leaves a suffix. All that were dropped are long past,
/// and the first that is left is not.
pub proof fn old_times_are_dropped(times: Seq<Timestamp>, now: Timestamp, per: Duration)
    ensures
        ({
            let fresh = fresh_times(times, now, per);
            let dropped = times.len() - fresh.len();
            &&& fresh.len() <= times.len()
            &&& fresh == times.skip(dropped)
            &&& fresh.len() > 0 ==> elapsed(now, fresh[0]) <= per.nanos
            &&& forall|k: int|
                0 <= k < dropped ==> elapsed(now, #[trigger] times[k]) > per.nanos
        }),
    decreases times.len(),
{
    if times.len() > 0 && elapsed(now, times[0]) > per.nanos {
        let rest = times.drop_first();
        old_times_are_dropped(rest, now, per);
        let fresh = fresh_times(times, now, per);
        let dropped = times.len() - fresh.len();
        assert(rest.skip(dropped - 1) =~= times.skip(dropped));
        assert forall|k: int| 0 <= k < dropped implies elapsed(now, #[trigger] times[k])
            > per.nanos by {
            if k > 0 {
                assert(rest[k - 1] == times[k]);
            }
        }
    } else {
        assert(times.skip(0) =~= times);
    }
}

/// Where the first `n` are refused and the others kept, the others are left.
pub proof fn filter_is_suffix<A>(s: Seq<A>, keep: spec_fn(A) -> bool, n: int)
    requires
        0 <= n <= s.len(),
        forall|k: int| 0 <= k < n ==> !keep(#[trigger] s[k]),
        forall|k: int| n <= k < s.len() ==> keep(#[trigger] s[k]),
    ensures
        s.filter(keep) == s.skip(n),
    decreases s.len(),
{
    reveal(Seq::filter);
    if s.len() > 0 {
        let rest = s.drop_last();
        assert forall|k: int| 0 <= k < rest.len() implies rest[k] == s[k] by {}
        if n < s.len() {
            filter_is_suffix(rest, keep, n);
            assert(rest.skip(n).push(s.last()) =~= s.skip(n));
        } else {
            filter_is_suffix(rest, keep, n - 1);
            assert(rest.skip(n - 1) =~= s.skip(n));
        }
    } else {
        assert(s.skip(0) =~= s);
    }
}

/// Where at most `n` successive places are kept, at most `n` are left.
proof fn filter_of_few<A>(s: Seq<A>, keep: spec_fn(A) -> bool, lo: int, n: nat)
    requires
        forall|k: int| 0 <= k < s.len() && keep(#[trigger] s[k]) ==> lo <= k < lo + n,
    ensures
        s.filter(keep).len() <= n,
    decreases s.len(),
{
    reveal(Seq::filter);
    if s.len() > 0 {
        let rest = s.drop_last();
        let last = s.len() - 1;
        assert forall|k: int| 0 <= k < rest.len() implies rest[k] == s[k] by {}
        if keep(s[last]) {
            filter_of_few(rest, keep, lo, (last - lo) as nat);
        } else {
            filter_of_few(rest, keep, lo, n);
        }
    }
}

/// What is recorded are the last of the granted requests; the others are long
/// past. Any `max + 1` successive granted requests span more than the period.
proof fn records_are_recent(limit: Throttle, requests: Seq<Timestamp>)
    requires
        ascending(requests),
    ensures
        ({
            let all = granted(limit, requests);
            let kept = after_requests(limit, requests).fires;
            let gone = all.len() - kept.len();
            &&& after_requests(limit, requests).limit == limit
            &&& kept.len() <= all.len()
            &&& kept.len() <= limit.max
            &&& kept == all.skip(gone)
            &&& ascending(all)
            &&& forall|k: int|
                0 <= k < all.len() ==> requests.len() > 0 && (#[trigger] all[k]).nanos
                    <= requests.last().nanos
            &&& forall|k: int|
                0 <= k < gone ==> requests.last().nanos - (#[trigger] all[k]).nanos
                    > limit.per.nanos
            &&& forall|j: int, k: int|
                0 <= j && k == j + limit.max && k < all.len() ==> (#[trigger] all[k]).nanos - (
                #[trigger] all[j]).nanos > limit.per.nanos
        }),
    decreases requests.len(),
{
    let all = granted(limit, requests);
    let end = after_requests(limit, requests);
    if requests.len() == 0 {
        assert(end.fires =~= all.skip(0));
    } else {
        let before = requests.drop_last();
        let now = requests.last();
        prefix_ascends(requests);
        records_are_recent(limit, before);
        let mid = after_requests(limit, before);
        let then = granted(limit, before);
        let was = mid.fires;
        let gone = then.len() - was.len();
        if before.len() > 0 {
            assert(before.last() == requests[requests.len() - 2]);
        }
        let live = mid.live(now);
        old_times_are_dropped(was, now, limit.per);
        let dropped = was.len() - live.len();
        assert(live =~= then.skip(gone + dropped));
        assert forall|k: int| 0 <= k < gone + dropped implies now.nanos - (
        #[trigger] then[k]).nanos > limit.per.nanos by {
            if k >= gone {
                assert(was[k - gone] == then[k]);
                assert(elapsed(now, was[k - gone]) > limit.per.nanos);
            }
        }
        if mid.allows(now) {
            assert(all == then.push(now));
            assert(live.push(now) =~= all.skip(gone + dropped));
            assert forall|j: int, k: int| 0 <= j < k < all.len() implies (
            #[trigger] all[j]).nanos <= (#[trigger] all[k]).nanos by {
                assert(all[j] == then[j]);
                if k < then.len() {
                    assert(then[j].nanos <= then[k].nanos);
                }
            }
            assert forall|j: int, k: int|
                0 <= j && k == j + limit.max && k < all.len() implies (#[trigger] all[k]).nanos - (
            #[trigger] all[j]).nanos > limit.per.nanos by {
                if k < then.len() {
                    assert(then[k].nanos - then[j].nanos > limit.per.nanos);
                } else {
                    assert(j < gone + dropped);
                    assert(then[j] == all[j]);
                }
            }
        }
    }
}

/// The times of a closed interval that starts at `start` and is `per` long.
pub open spec fn within(start: int, per: Duration) -> spec_fn(Timestamp) -> bool {
    |x: Timestamp| start <= x.nanos <= start + per.nanos
}

/// The times that are at most `per` ago.
pub open spec fn at_most_ago(now: Timestamp, per: Duration) -> spec_fn(Timestamp) -> bool {
    |x: Timestamp| elapsed(now, x) <= per.nanos
}

/// Times of which any `max + 1` successive ones span more than `per` have at most
/// `max` in any interval of that length.
proof fn spaced_times_are_few(times: Seq<Timestamp>, limit: Throttle, start: int)
    requires
        ascending(times),
        forall|j: int, k: int|
            0 <= j && k == j + limit.max && k < times.len() ==> (#[trigger] times[k]).nanos - (
            #[trigger] times[j]).nanos > limit.per.nanos,
    ensures
        times.filter(within(start, limit.per)).len() <= limit.max,
    decreases times.len(),
{
    let keep = within(start, limit.per);
    reveal(Seq::filter);
    if times.len() > 0 {
        let last = times.len() - 1;
        if keep(times[last]) {
            let lo = last - limit.max + 1;
            assert forall|j: int| 0 <= j < times.len() && keep(#[trigger] times[j]) implies lo <= j
                < lo + limit.max by {
                if j < lo {
                    assert(times[j + limit.max].nanos - times[j].nanos > limit.per.nanos);
                    assert(j + limit.max < last ==> times[j + limit.max].nanos
                        <= times[last].nanos);
                }
            }
            filter_of_few(times, keep, lo, limit.max as nat);
        } else {
            let rest = times.drop_last();
            prefix_ascends(times);
            assert forall|j: int, k: int|
                0 <= j && k == j + limit.max && k < rest.len() implies (
            #[trigger] rest[k]).nanos - (#[trigger] rest[j]).nanos > limit.per.nanos by {
                assert(times[k].nanos - times[j].nanos > limit.per.nanos);
            }
            spaced_times_are_few(rest, limit, start);
        }
    }
}

/// A throttle caps every period: of requests that come in order, no closed
/// interval of the length of its period holds more than `max` that are granted.
pub proof fn every_period_is_capped(limit: Throttle, requests: Seq<Timestamp>, start: int)
    requires
        ascending(requests),
    ensures
        granted(limit, requests).filter(within(start, limit.per)).len() <= limit.max,
{
    records_are_recent(limit, requests);
    spaced_times_are_few(granted(limit, requests), limit, start);
}

/// A throttle refuses nothing without cause: after requests that come in order, a
/// further one is refused exactly where `max` of those granted are at most a
/// period ago, and there are never more.
pub proof fn nothing_is_refused_without_cause(
    limit: Throttle,
    requests: Seq<Timestamp>,
    now: Timestamp,
)
    requires
        ascending(requests.push(now)),
    ensures
        ({
            let recent = granted(limit, requests).filter(at_most_ago(now, limit.per));
            &&& recent.len() <= limit.max
            &&& !after_requests(limit, requests).allows(now) <==> recent.len() == limit.max
        }),
{
    let all = granted(limit, requests);
    let state = after_requests(limit, requests);
    let keep = at_most_ago(now, limit.per);
    prefix_ascends(requests.push(now));
    assert(requests.push(now).drop_last() =~= requests);
    assert(requests.len() > 0 ==> requests.push(now)[requests.len() - 1] == requests.last());
    records_are_recent(limit, requests);
    let kept = state.fires;
    let gone = all.len() - kept.len();
    let live = state.live(now);
    let dropped = kept.len() - live.len();
    old_times_are_dropped(kept, now, limit.per);
    assert forall|k: int| 0 <= k < gone + dropped implies !keep(#[trigger] all[k]) by {
        if k >= gone {
            assert(kept[k - gone] == all[k]);
        }
    }
    assert forall|k: int| gone + dropped <= k < all.len() implies keep(#[trigger] all[k]) by {
        let first = gone + dropped;
        assert(live[0] == all[first]);
        assert(first < k ==> all[first].nanos <= all[k].nanos);
    }
    filter_is_suffix(all, keep, gone + dropped);
}

} // verus!

use vstd::prelude::*;
use std::time::Instant;
use crate::clock::{SECOND, elapsed, elapsed_between, nanos_since, start};

verus! {

/// A limiter that lets `limit` events pass each second. It counts the
/// events let through and starts over when an event comes a second or more
/// after the count began.
#[derive(Debug)]
pub struct Rate {
    limit: usize,
    num: usize,
    last: u128,
    origin: Instant,
}

/// What a limiter is: its limit, the events counted, and when the count
/// began, in nanoseconds since the limiter was made.
pub struct RateState {
    pub limit: nat,
    pub num: nat,
    pub last: u128,
}

/// What one request at time `now` does to a limiter, and whether it is let
/// through. A full count starts over once a second has passed since it
/// began; a request is let through while the count is below the limit.
pub open spec fn allow_step(s: RateState, now: u128) -> (RateState, bool) {
    let fresh = if s.num >= s.limit && elapsed(now, s.last) >= SECOND {
        RateState { limit: s.limit, num: 0, last: now }
    } else {
        s
    };
    if fresh.num < fresh.limit {
        (RateState { limit: fresh.limit, num: fresh.num + 1, last: fresh.last }, true)
    } else {
        (fresh, false)
    }
}

/// The limiter after requests at each of `times`, in order.
pub open spec fn state_after(s: RateState, times: Seq<u128>) -> RateState
    decreases times.len(),
{
    if times.len() == 0 {
        s
    } else {
        allow_step(state_after(s, times.drop_last()), times.last()).0
    }
}

/// How many of the requests at `times` are let through.
pub open spec fn allowed_count(s: RateState, times: Seq<u128>) -> nat
    decreases times.len(),
{
    if times.len() == 0 {
        0
    } else {
        allowed_count(s, times.drop_last()) + if allow_step(
            state_after(s, times.drop_last()),
            times.last(),
        ).1 {
            1nat
        } else {
            0nat
        }
    }
}

/// Which of the requests at `times` are let through: their indices, in
/// ascending order.
pub open spec fn passed(s: RateState, times: Seq<u128>) -> Seq<int>
    decreases times.len(),
{
    if times.len() == 0 {
        Seq::empty()
    } else {
        let before = passed(s, times.drop_last());
        if allow_step(state_after(s, times.drop_last()), times.last()).1 {
            before.push(times.len() - 1)
        } else {
            before
        }
    }
}

impl View for Rate {
    type V = RateState;

    closed spec fn view(&self) -> RateState {
        RateState { limit: self.limit as nat, num: self.num as nat, last: self.last }
    }
}

impl Rate {
    #[verifier::type_invariant]
    closed spec fn counted(&self) -> bool {
        self.num <= self.limit
    }

    /// A limiter that lets `n` events pass each second. Its clock starts
    /// now.
    pub fn new(n: usize) -> (r: Rate)
        ensures
            r@ == (RateState { limit: n as nat, num: 0, last: 0 }),
    {
        Rate { limit: n, num: 0, last: 0, origin: start() }
    }

    /// Whether an event may pass now. The answer is that of `allow_at` for
    /// the time that the clock shows.
    pub fn allow(&mut self) -> (r: bool)
        ensures
            exists|now: u128| (final(self)@, r) == allow_step(old(self)@, now),
            final(self)@.num <= final(self)@.limit,
    {
        let now: u128 = nanos_since(&self.origin);
        let r = self.allow_at(now);
        proof {
            assert((self@, r) == allow_step(old(self)@, now));
        }
        r
    }

    /// Whether an event may pass at `now`, in nanoseconds since the limiter
    /// was made.
    pub fn allow_at(&mut self, now: u128) -> (r: bool)
        ensures
            (final(self)@, r) == allow_step(old(self)@, now),
            final(self)@.num <= final(self)@.limit,
            old(self)@.num <= old(self)@.limit,
    {
        proof {
            use_type_invariant(&*self);
        }
        if self.num >= self.limit && elapsed_between(now, self.last) >= SECOND {
            self.num = 0;
            self.last = now;
        }
        if self.num < self.limit {
            self.num = self.num + 1;
            true
        } else {
            false
        }
    }
}

/// While the count is not started over, no more than `limit` requests are
/// let through: of requests that all come less than a second after the
/// count began, at most `limit - num` pass, and the count goes on.
pub proof fn lemma_rate_window(s: RateState, times: Seq<u128>)
    requires
        s.num <= s.limit,
        forall|i: int| 0 <= i < times.len() ==> elapsed(#[trigger] times[i], s.last) < SECOND,
    ensures
        s.num + allowed_count(s, times) <= s.limit,
        state_after(s, times).num == s.num + allowed_count(s, times),
        state_after(s, times).last == s.last,
        state_after(s, times).limit == s.limit,
    decreases times.len(),
{
    if times.len() > 0 {
        let before = times.drop_last();
        assert forall|i: int| 0 <= i < before.len() implies elapsed(
            #[trigger] before[i],
            s.last,
        ) < SECOND by {
            assert(before[i] == times[i]);
        }
        lemma_rate_window(s, before);
        assert(elapsed(times[times.len() - 1], s.last) < SECOND);
    }
}

/// A fresh limiter lets no more than `limit` of the requests of its first
/// second pass.
pub proof fn lemma_rate_first_second(limit: nat, times: Seq<u128>)
    requires
        forall|i: int| 0 <= i < times.len() ==> #[trigger] times[i] < SECOND,
    ensures
        allowed_count(RateState { limit, num: 0, last: 0 }, times) <= limit,
{
    lemma_rate_window(RateState { limit, num: 0, last: 0 }, times);
}

/// Requests may be taken one by one from the front: the first request
/// acts on the limiter, and the others on what it leaves.
pub proof fn lemma_first_request(s: RateState, times: Seq<u128>)
    requires
        times.len() > 0,
    ensures
        state_after(s, times) == state_after(allow_step(s, times[0]).0, times.skip(1)),
        allowed_count(s, times) == allowed_count(allow_step(s, times[0]).0, times.skip(1))
            + if allow_step(s, times[0]).1 {
            1nat
        } else {
            0nat
        },
    decreases times.len(),
{
    let rest = times.skip(1);
    let init = times.drop_last();
    let next = allow_step(s, times[0]).0;
    if times.len() == 1 {
        assert(init =~= Seq::<u128>::empty());
        assert(rest =~= Seq::<u128>::empty());
        assert(state_after(s, init) == s);
        assert(allowed_count(s, init) == 0);
        assert(state_after(next, rest) == next);
        assert(allowed_count(next, rest) == 0);
    } else {
        lemma_first_request(s, init);
        assert(init.skip(1) =~= rest.drop_last());
        assert(init[0] == times[0]);
        assert(rest.last() == times.last());
        assert(state_after(next, rest) == allow_step(
            state_after(next, rest.drop_last()),
            rest.last(),
        ).0);
        assert(allowed_count(next, rest) == allowed_count(next, rest.drop_last()) + if allow_step(
            state_after(next, rest.drop_last()),
            rest.last(),
        ).1 {
            1nat
        } else {
            0nat
        });
    }
}

/// Within any window shorter than a second, no more than twice `limit`
/// requests are let through: at most `limit` before the count is started
/// over, and at most `limit` after. The times are those of a clock that does
/// not run backwards.
pub proof fn lemma_rate_rolling_window(s: RateState, times: Seq<u128>)
    requires
        s.num <= s.limit,
        forall|i: int, j: int| 0 <= i <= j < times.len() ==> times[i] <= times[j],
        times.len() > 0 ==> times.last() - times[0] < SECOND,
    ensures
        s.num + allowed_count(s, times) <= 2 * s.limit,
        allowed_count(s, times) <= 2 * s.limit,
    decreases times.len(),
{
    if times.len() > 0 {
        let first = times[0];
        let rest = times.skip(1);
        let next = allow_step(s, first).0;
        lemma_first_request(s, times);
        assert forall|i: int, j: int| 0 <= i <= j < rest.len() implies rest[i] <= rest[j] by {
            assert(rest[i] == times[i + 1] && rest[j] == times[j + 1]);
        }
        if rest.len() > 0 {
            assert(rest.last() == times.last());
            assert(rest[0] == times[1]);
            assert(times[0] <= times[1]);
        }
        if s.num >= s.limit && elapsed(first, s.last) >= SECOND {
            assert forall|i: int| 0 <= i < rest.len() implies elapsed(
                #[trigger] rest[i],
                next.last,
            ) < SECOND by {
                assert(rest[i] == times[i + 1]);
                assert(times[0] <= times[i + 1]);
                assert(times[i + 1] <= times[times.len() - 1]);
            }
            lemma_rate_window(next, rest);
        } else {
            lemma_rate_rolling_window(next, rest);
        }
    }
}

/// What `passed` holds: the index of a request is in it if and only if the
/// limiter, in the state that the requests before it left, lets that request
/// through. The indices are ascending, and there are as many as
/// `allowed_count` counts.
pub proof fn lemma_passed(s: RateState, times: Seq<u128>)
    ensures
        passed(s, times).len() == allowed_count(s, times),
        forall|k: int|
            0 <= k < passed(s, times).len() ==> 0 <= #[trigger] passed(s, times)[k] < times.len(),
        forall|j: int, k: int|
            0 <= j < k < passed(s, times).len() ==> passed(s, times)[j] < passed(s, times)[k],
        forall|i: int|
            0 <= i < times.len() ==> (passed(s, times).contains(i) <==> allow_step(
                #[trigger] state_after(s, times.take(i)),
                times[i],
            ).1),
    decreases times.len(),
{
    if times.len() > 0 {
        let init = times.drop_last();
        let last: int = times.len() - 1;
        let before = passed(s, init);
        let now = passed(s, times);
        lemma_passed(s, init);
        assert(times.take(last) =~= init);
        assert forall|i: int| 0 <= i < times.len() implies (now.contains(i) <==> allow_step(
            #[trigger] state_after(s, times.take(i)),
            times[i],
        ).1) by {
            if i < last {
                assert(init.take(i) =~= times.take(i));
                assert(init[i] == times[i]);
                if before.contains(i) {
                    let k = choose|k: int| 0 <= k < before.len() && before[k] == i;
                    assert(now[k] == i);
                }
                if now.contains(i) {
                    let k = choose|k: int| 0 <= k < now.len() && now[k] == i;
                    assert(before[k] == i);
                }
            } else {
                if allow_step(state_after(s, init), times.last()).1 {
                    assert(now[now.len() - 1] == last);
                } else if now.contains(i) {
                    let k = choose|k: int| 0 <= k < now.len() && now[k] == i;
                    assert(before[k] < init.len());
                }
            }
        }
    }
}

} // verus!

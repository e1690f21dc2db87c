//! The pool as the contracts see it, what one selection and one merge of
//! probe outcomes do to it, and the laws of selection over many calls.

use vstd::arithmetic::div_mod::{
    lemma_add_mod_noop,
    lemma_fundamental_div_mod,
    lemma_mod_bound,
    lemma_mod_mod,
    lemma_mod_multiples_vanish,
    lemma_small_mod,
};
use vstd::prelude::*;

use crate::load_balancer::Server;
use crate::probe::{reply_healthy, ProbeReply};

verus! {

/// Number of values of the cursor: it is a 32-bit counter.
pub open spec fn cursor_range() -> int {
    0x1_0000_0000
}

/// The cursor advanced `k` times, wrapping around at its width.
pub open spec fn wrap_add(c: u32, k: int) -> u32 {
    ((c as int + k) % cursor_range()) as u32
}

pub(crate) proof fn lemma_wrap_step(c: u32, t: int)
    requires
        t >= 0,
    ensures
        wrap_add(c, t + 1) == (wrap_add(c, t) as u32).wrapping_add(1),
{
    let x = c as int + t;
    lemma_add_mod_noop(x, 1, cursor_range());
    if x % cursor_range() + 1 < cursor_range() {
        lemma_small_mod((x % cursor_range() + 1) as nat, cursor_range() as nat);
    }
}

/// The pool as the contracts see it: the backends in their fixed order, and
/// the rotation cursor.
pub struct PoolState {
    pub backends: Seq<Server>,
    pub cursor: u32,
}

/// Attempts `0..k` from cursor `c` look at consecutive positions modulo `n`:
/// either the counter does not wrap within them, or `n` divides its range.
pub open spec fn rotation_intact(c: u32, k: int, n: int) -> bool {
    c as int + k <= cursor_range() || cursor_range() % n == 0
}

proof fn lemma_wrap_compose(c: u32, a: int, b: int)
    requires
        a >= 0,
        b >= 0,
    ensures
        wrap_add(wrap_add(c, a), b) == wrap_add(c, a + b),
{
    let m = cursor_range();
    let x = c as int + a;
    lemma_mod_bound(x, m);
    lemma_small_mod((x % m) as nat, m as nat);
    lemma_add_mod_noop(x % m, b, m);
    lemma_add_mod_noop(x, b, m);
}

proof fn lemma_slot_linear(c: u32, x: int, n: int)
    requires
        n > 0,
        x >= 0,
        c as int + x < cursor_range() || cursor_range() % n == 0,
    ensures
        wrap_add(c, x) as int % n == (c as int + x) % n,
{
    let m = cursor_range();
    let y = c as int + x;
    if y < m {
        lemma_small_mod(y as nat, m as nat);
    } else {
        let q = m / n;
        assert(m == n * q) by (nonlinear_arith)
            requires
                m % n == 0,
                n > 0,
                q == m / n,
        ;
        assert(q > 0) by (nonlinear_arith)
            requires
                m == n * q,
                m > 0,
                n > 0,
        ;
        lemma_mod_mod(y, n, q);
    }
    lemma_mod_bound(y, m);
}

proof fn lemma_mod_succ(x: int, n: int)
    requires
        n > 0,
    ensures
        (x % n + 1) % n == (x + 1) % n,
{
    lemma_mod_bound(x, n);
    lemma_add_mod_noop(x, 1, n);
    if n == 1 {
        assert(1int % 1 == 0);
    } else {
        lemma_small_mod(1, n as nat);
    }
    lemma_small_mod((x % n) as nat, n as nat);
}

proof fn lemma_offset_to(c: int, i: int, n: int)
    requires
        0 <= i < n,
    ensures
        0 <= (i - c) % n < n,
        (c + (i - c) % n) % n == i,
{
    lemma_mod_bound(i - c, n);
    lemma_fundamental_div_mod(i - c, n);
    let q = (i - c) / n;
    assert(c + (i - c) % n == n * (-q) + i) by (nonlinear_arith)
        requires
            i - c == n * q + (i - c) % n,
    ;
    lemma_mod_multiples_vanish(-q, i, n);
    lemma_small_mod(i as nat, n as nat);
}

impl PoolState {
    pub open spec fn size(self) -> int {
        self.backends.len() as int
    }

    /// The backend index that attempt `t` of a selection from this state
    /// looks at: the cursor advanced `t` times, modulo the pool size.
    pub open spec fn slot(self, t: int) -> int {
        wrap_add(self.cursor, t) as int % self.size()
    }

    pub open spec fn hit(self, t: int) -> bool {
        self.backends[self.slot(t)].healthy
    }

    /// The first attempt, from `t` on and below the pool size, that lands on a
    /// healthy backend; the pool size if there is none.
    pub open spec fn first_hit(self, t: int) -> int
        decreases self.size() - t,
    {
        if t >= self.size() {
            self.size()
        } else if self.hit(t) {
            t
        } else {
            self.first_hit(t + 1)
        }
    }

    proof fn lemma_first_hit(self, t: int)
        requires
            0 <= t <= self.size(),
        ensures
            t <= self.first_hit(t) <= self.size(),
            self.first_hit(t) < self.size() ==> self.hit(self.first_hit(t)),
            forall|u: int| t <= u < self.first_hit(t) ==> !#[trigger] self.hit(u),
        decreases self.size() - t,
    {
        if t < self.size() && !self.hit(t) {
            self.lemma_first_hit(t + 1);
        }
    }

    proof fn lemma_first_hit_at_most(self, t: int, u: int)
        requires
            0 <= t <= u < self.size(),
            self.hit(u),
        ensures
            self.first_hit(t) <= u,
        decreases u - t,
    {
        if !self.hit(t) {
            self.lemma_first_hit_at_most(t + 1, u);
        }
    }

    /// Number of attempts that one selection makes.
    pub open spec fn attempts(self) -> int {
        let t = self.first_hit(0);
        if t < self.size() {
            t + 1
        } else {
            self.size()
        }
    }

    /// Index of the backend that one selection returns, if any.
    pub open spec fn chosen(self) -> Option<int> {
        let t = self.first_hit(0);
        if t < self.size() {
            Some(self.slot(t))
        } else {
            None
        }
    }

    /// The backend that one selection returns, if any.
    pub open spec fn selected(self) -> Option<Server> {
        match self.chosen() {
            Some(i) => Some(self.backends[i]),
            None => None,
        }
    }

    /// The state after the health flag of every backend at `url` is set to
    /// `healthy`.
    pub open spec fn with_health(self, url: Seq<char>, healthy: bool) -> PoolState {
        PoolState {
            backends: self.backends.map_values(|s: Server| s.with_health(url, healthy)),
            cursor: self.cursor,
        }
    }

    /// The state after the outcomes are applied one after the other: for each
    /// address the last outcome given for it wins.
    pub open spec fn merged(self, outcomes: Seq<(String, bool)>) -> PoolState
        decreases outcomes.len(),
    {
        if outcomes.len() == 0 {
            self
        } else {
            let last = outcomes.last();
            self.merged(outcomes.drop_last()).with_health(last.0@, last.1)
        }
    }

    /// The state after `k` selections in a row.
    pub open spec fn after_selects(self, k: nat) -> PoolState
        decreases k,
    {
        if k == 0 {
            self
        } else {
            self.after_selects((k - 1) as nat).after_select()
        }
    }

    /// The backend indices that `k` selections in a row return.
    pub open spec fn picks(self, k: nat) -> Seq<Option<int>>
        decreases k,
    {
        if k == 0 {
            Seq::empty()
        } else {
            self.picks((k - 1) as nat).push(self.after_selects((k - 1) as nat).chosen())
        }
    }

    /// Total attempts that `k` selections in a row make.
    spec fn advance(self, k: nat) -> int
        decreases k,
    {
        if k == 0 {
            0
        } else {
            self.advance((k - 1) as nat) + self.after_selects((k - 1) as nat).attempts()
        }
    }

    proof fn lemma_after_selects(self, k: nat)
        ensures
            self.after_selects(k).backends == self.backends,
            self.after_selects(k).cursor == wrap_add(self.cursor, self.advance(k)),
            0 <= self.advance(k),
            self.size() > 0 ==> self.advance(k) >= k,
            self.picks(k).len() == k,
            forall|j: int| 0 <= j < k ==> #[trigger] self.picks(k)[j] == self.after_selects(j as nat).chosen(),
        decreases k,
    {
        if k > 0 {
            let k1 = (k - 1) as nat;
            self.lemma_after_selects(k1);
            let q = self.after_selects(k1);
            q.lemma_first_hit(0);
            lemma_wrap_compose(self.cursor, self.advance(k1), q.attempts());
            assert forall|j: int| 0 <= j < k implies #[trigger] self.picks(k)[j] == self.after_selects(j as nat).chosen() by {
                if j < k1 {
                    assert(self.picks(k)[j] == self.picks(k1)[j]);
                }
            }
        }
    }

    /// Every index that a run of selections returns is that of a healthy
    /// backend.
    proof fn lemma_picks_healthy(self, k: nat)
        ensures
            forall|j: int|
                0 <= j < k ==> (#[trigger] self.picks(k)[j] matches Some(i) ==> 0 <= i < self.size()
                    && self.backends[i].healthy),
    {
        self.lemma_after_selects(k);
        assert forall|j: int| 0 <= j < k implies (#[trigger] self.picks(k)[j] matches Some(i) ==> 0 <= i < self.size()
            && self.backends[i].healthy) by {
            let q = self.after_selects(j as nat);
            self.lemma_after_selects(j as nat);
            q.lemma_first_hit(0);
            if q.first_hit(0) < q.size() {
                lemma_mod_bound(wrap_add(q.cursor, q.first_hit(0)) as int, q.size());
            }
        }
    }

    /// The state after one selection: every attempt advanced the cursor.
    pub open spec fn after_select(self) -> PoolState {
        PoolState { backends: self.backends, cursor: wrap_add(self.cursor, self.attempts()) }
    }
}

/// The outcomes of one probe cycle: each probed address with the health that
/// its reply stands for, in the order the replies came.
pub open spec fn cycle_outcomes(replies: Seq<(String, ProbeReply)>) -> Seq<(String, bool)> {
    replies.map_values(|p: (String, ProbeReply)| (p.0, reply_healthy(p.1)))
}

/// A selection from a pool that has a healthy backend returns a healthy
/// backend, after at least one and at most as many attempts as there are
/// backends, provided the attempts do not straddle a wrap of the cursor that
/// breaks the rotation.
pub proof fn lemma_select_finds_healthy(p: PoolState)
    requires
        exists|i: int| 0 <= i < p.size() && (#[trigger] p.backends[i]).healthy,
        rotation_intact(p.cursor, p.size(), p.size()),
    ensures
        p.chosen() matches Some(i) && 0 <= i < p.size() && p.backends[i].healthy,
        p.selected() matches Some(s) && s.healthy,
        1 <= p.attempts() <= p.size(),
{
    let i = choose|i: int| 0 <= i < p.size() && (#[trigger] p.backends[i]).healthy;
    let n = p.size();
    let c = p.cursor as int;
    lemma_offset_to(c, i, n);
    let d = (i - c) % n;
    lemma_slot_linear(p.cursor, d, n);
    assert(p.slot(d) == i);
    p.lemma_first_hit_at_most(0, d);
    p.lemma_first_hit(0);
    lemma_mod_bound(wrap_add(p.cursor, p.first_hit(0)) as int, n);
}

/// A selection from a pool without a healthy backend returns nothing.
pub proof fn lemma_select_none_without_healthy(p: PoolState)
    requires
        forall|i: int| 0 <= i < p.size() ==> !(#[trigger] p.backends[i]).healthy,
    ensures
        p.chosen() is None,
        p.selected() is None,
        p.attempts() == p.size(),
{
    p.lemma_first_hit(0);
    if p.first_hit(0) < p.size() {
        lemma_mod_bound(wrap_add(p.cursor, p.first_hit(0)) as int, p.size());
    }
}

/// Round-robin fairness: when every backend is healthy, `k` selections in a
/// row return the backends in rotation order from the cursor on, each one
/// the backend after the one before it, as long as the run does not straddle
/// a wrap of the cursor that breaks the rotation.
pub proof fn lemma_round_robin(p: PoolState, k: nat)
    requires
        p.size() > 0,
        forall|i: int| 0 <= i < p.size() ==> (#[trigger] p.backends[i]).healthy,
        rotation_intact(p.cursor, k as int, p.size()),
    ensures
        p.picks(k).len() == k,
        forall|j: int| 0 <= j < k ==> #[trigger] p.picks(k)[j] == Some((p.cursor + j) % p.size()),
        forall|j: int|
            0 < j < k ==> (#[trigger] p.picks(k)[j]) == Some((p.picks(k)[j - 1]->0 + 1) % p.size()),
        p.after_selects(k).cursor == wrap_add(p.cursor, k as int),
    decreases k,
{
    let n = p.size();
    let c = p.cursor as int;
    p.lemma_after_selects(k);
    if k > 0 {
        let k1 = (k - 1) as nat;
        lemma_round_robin(p, k1);
        let q = p.after_selects(k1);
        lemma_mod_bound(wrap_add(q.cursor, 0) as int, n);
        assert(q.hit(0));
        lemma_wrap_compose(p.cursor, k1 as int, 0);
        lemma_wrap_compose(p.cursor, k1 as int, 1);
        lemma_slot_linear(p.cursor, k1 as int, n);
        assert(q.chosen() == Some((c + k1) % n));
        assert forall|j: int| 0 <= j < k implies #[trigger] p.picks(k)[j] == Some((c + j) % n) by {
            if j < k1 {
                assert(p.picks(k)[j] == p.picks(k1)[j]);
            }
        }
        assert forall|j: int| 0 < j < k implies (#[trigger] p.picks(k)[j]) == Some((p.picks(k)[j - 1]->0 + 1) % n) by {
            assert(p.picks(k)[j - 1] == Some((c + j - 1) % n));
            lemma_mod_succ(c + j - 1, n);
        }
    }
}

/// Over a full round, all backends healthy, each backend is returned exactly
/// once.
pub proof fn lemma_round_robin_covers(p: PoolState)
    requires
        p.size() > 0,
        forall|i: int| 0 <= i < p.size() ==> (#[trigger] p.backends[i]).healthy,
        rotation_intact(p.cursor, p.size(), p.size()),
    ensures
        forall|i: int| 0 <= i < p.size() ==> #[trigger] p.picks(p.size() as nat).contains(Some(i)),
        forall|j1: int, j2: int|
            0 <= j1 < j2 < p.size() ==> #[trigger] p.picks(p.size() as nat)[j1] != #[trigger] p.picks(p.size() as nat)[j2],
{
    let n = p.size();
    let c = p.cursor as int;
    let k = n as nat;
    lemma_round_robin(p, k);
    assert forall|i: int| 0 <= i < n implies #[trigger] p.picks(k).contains(Some(i)) by {
        lemma_offset_to(c, i, n);
        assert(p.picks(k)[(i - c) % n] == Some(i));
    }
    assert forall|j1: int, j2: int| 0 <= j1 < j2 < n implies #[trigger] p.picks(k)[j1] != #[trigger] p.picks(k)[j2] by {
        lemma_fundamental_div_mod(c + j1, n);
        lemma_fundamental_div_mod(c + j2, n);
        let q1 = (c + j1) / n;
        let q2 = (c + j2) / n;
        if (c + j1) % n == (c + j2) % n {
            assert(false) by (nonlinear_arith)
                requires
                    c + j1 == n * q1 + (c + j1) % n,
                    c + j2 == n * q2 + (c + j2) % n,
                    (c + j1) % n == (c + j2) % n,
                    0 < j2 - j1 < n,
            ;
        }
    }
}

/// Skip behaviour: a backend that is unhealthy is returned by no selection
/// until its health changes.
pub proof fn lemma_unhealthy_never_chosen(p: PoolState, k: nat, b: int)
    requires
        0 <= b < p.size(),
        !p.backends[b].healthy,
    ensures
        forall|j: int| 0 <= j < k ==> #[trigger] p.picks(k)[j] != Some(b),
{
    p.lemma_after_selects(k);
    p.lemma_picks_healthy(k);
    assert forall|j: int| 0 <= j < k implies #[trigger] p.picks(k)[j] != Some(b) by {
        if p.picks(k)[j] == Some(b) {
            assert(p.backends[b].healthy);
        }
    }
}

/// Once the backends at `url` are marked unhealthy, no selection returns one
/// of them until they are marked healthy again.
pub proof fn lemma_marked_unhealthy_skipped(p: PoolState, url: Seq<char>, k: nat)
    ensures
        forall|j: int, i: int|
            0 <= j < k && #[trigger] p.with_health(url, false).picks(k)[j] == Some(i) ==> 0 <= i
                < p.size() && #[trigger] p.backends[i].url@ != url,
{
    let q = p.with_health(url, false);
    q.lemma_picks_healthy(k);
    assert forall|j: int, i: int|
        0 <= j < k && #[trigger] q.picks(k)[j] == Some(i) implies 0 <= i < p.size() && #[trigger] p.backends[i].url@ != url by {
        assert(q.backends[i] == p.backends[i].with_health(url, false));
    }
}

/// The last outcome that `outcomes` give for `url`, if any.
pub open spec fn last_outcome(outcomes: Seq<(String, bool)>, url: Seq<char>) -> Option<bool>
    decreases outcomes.len(),
{
    if outcomes.len() == 0 {
        None
    } else if outcomes.last().0@ == url {
        Some(outcomes.last().1)
    } else {
        last_outcome(outcomes.drop_last(), url)
    }
}

/// Merging outcomes keeps the backends and their order, and sets each
/// backend's health to the last outcome given for its address.
pub proof fn lemma_merged_health(p: PoolState, outcomes: Seq<(String, bool)>)
    ensures
        p.merged(outcomes).size() == p.size(),
        p.merged(outcomes).cursor == p.cursor,
        forall|i: int|
            0 <= i < p.size() ==> {
                let m = #[trigger] p.merged(outcomes).backends[i];
                &&& m.id == p.backends[i].id
                &&& m.url == p.backends[i].url
                &&& m.health_check_url == p.backends[i].health_check_url
                &&& m.healthy == match last_outcome(outcomes, p.backends[i].url@) {
                    Some(h) => h,
                    None => p.backends[i].healthy,
                }
            },
    decreases outcomes.len(),
{
    if outcomes.len() > 0 {
        lemma_merged_health(p, outcomes.drop_last());
        let before = p.merged(outcomes.drop_last());
        assert forall|i: int| 0 <= i < p.size() implies #[trigger] p.merged(outcomes).backends[i]
            == before.backends[i].with_health(outcomes.last().0@, outcomes.last().1) by {}
    }
}

proof fn lemma_reach_step(p: PoolState, i: int, m: nat)
    requires
        0 <= i < p.size(),
        p.backends[i].healthy,
        rotation_intact(p.cursor, p.size(), p.size()),
        m <= p.size(),
    ensures
        p.picks(m).contains(Some(i)) || (m <= p.advance(m) <= (i - p.cursor) % p.size()),
    decreases m,
{
    let n = p.size();
    let c = p.cursor as int;
    lemma_offset_to(c, i, n);
    let d = (i - c) % n;
    p.lemma_after_selects(m);
    if m > 0 {
        let m1 = (m - 1) as nat;
        lemma_reach_step(p, i, m1);
        p.lemma_after_selects(m1);
        if p.picks(m1).contains(Some(i)) {
            let j = choose|j: int| 0 <= j < m1 && p.picks(m1)[j] == Some(i);
            assert(p.picks(m)[j] == p.picks(m1)[j]);
        } else {
            let q = p.after_selects(m1);
            let a = p.advance(m1);
            let e = d - a;
            lemma_wrap_compose(p.cursor, a, e);
            lemma_slot_linear(p.cursor, d, n);
            assert(q.slot(e) == i);
            q.lemma_first_hit_at_most(0, e);
            q.lemma_first_hit(0);
            if q.first_hit(0) == e {
                assert(p.picks(m)[m1 as int] == Some(i));
            }
        }
    }
}

/// Every healthy backend is returned within as many selections in a row as
/// there are backends, as long as the run does not straddle a wrap of the
/// cursor that breaks the rotation.
pub proof fn lemma_healthy_backend_reached(p: PoolState, i: int)
    requires
        0 <= i < p.size(),
        p.backends[i].healthy,
        rotation_intact(p.cursor, p.size(), p.size()),
    ensures
        p.picks(p.size() as nat).contains(Some(i)),
{
    let n = p.size();
    lemma_reach_step(p, i, n as nat);
    lemma_offset_to(p.cursor as int, i, n);
}

/// After a probe cycle is merged, a backend whose address last probed
/// unhealthy is returned by no selection, and one whose address last probed
/// healthy is returned within as many selections as there are backends
/// (unless the run straddles a wrap of the cursor that breaks the rotation).
pub proof fn lemma_cycle_then_select(p: PoolState, outcomes: Seq<(String, bool)>, i: int, k: nat)
    requires
        0 <= i < p.size(),
    ensures
        last_outcome(outcomes, p.backends[i].url@) == Some(false) ==> !p.merged(outcomes).picks(
            k,
        ).contains(Some(i)),
        last_outcome(outcomes, p.backends[i].url@) == Some(true) && rotation_intact(
            p.cursor,
            p.size(),
            p.size(),
        ) ==> p.merged(outcomes).picks(p.size() as nat).contains(Some(i)),
{
    let q = p.merged(outcomes);
    lemma_merged_health(p, outcomes);
    assert(q.backends[i] == p.merged(outcomes).backends[i]);
    if last_outcome(outcomes, p.backends[i].url@) == Some(false) {
        lemma_unhealthy_never_chosen(q, k, i);
        q.lemma_after_selects(k);
    }
    if last_outcome(outcomes, p.backends[i].url@) == Some(true) && rotation_intact(
        p.cursor,
        p.size(),
        p.size(),
    ) {
        lemma_healthy_backend_reached(q, i);
    }
}

} // verus!

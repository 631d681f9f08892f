//! Probe mutual-exclusion fence (soft lease).
//!
//! Only the intrusive throughput tier needs the fence. A lease is granted when
//! no other agent holds it; expiry without release lets another agent take
//! over. Because cluster consistency is eventual, a rare overlap is tolerated
//! and reported by the agent as `conflict`.

use crate::assoc::AssocMap;
use crate::controller::model::ProbeState;
use vstd::prelude::*;

verus! {

#[derive(Debug)]
pub struct Lease {
    pub holder: String,
    pub link: String,
    pub token: String,
    pub issued_at: u64,
    pub ttl_secs: u64,
}

/// A lease as plain values.
pub struct LeaseView {
    pub holder: Seq<char>,
    pub link: Seq<char>,
    pub token: Seq<char>,
    pub issued_at: u64,
    pub ttl_secs: u64,
}

impl View for Lease {
    type V = LeaseView;

    open spec fn view(&self) -> LeaseView {
        LeaseView {
            holder: self.holder@,
            link: self.link@,
            token: self.token@,
            issued_at: self.issued_at,
            ttl_secs: self.ttl_secs,
        }
    }
}

impl Clone for Lease {
    fn clone(&self) -> (r: Self)
        ensures
            r == *self,
    {
        Lease {
            holder: self.holder.clone(),
            link: self.link.clone(),
            token: self.token.clone(),
            issued_at: self.issued_at,
            ttl_secs: self.ttl_secs,
        }
    }
}

/// Seconds elapsed from `since` to `now`, 0 when `now` is earlier.
pub open spec fn elapsed(now: u64, since: u64) -> int {
    if now >= since {
        now - since
    } else {
        0
    }
}

impl LeaseView {
    /// A lease is expired once its ttl has fully elapsed.
    pub open spec fn expired_at(self, now: u64) -> bool {
        elapsed(now, self.issued_at) >= self.ttl_secs
    }
}

/// The fence's state: link -> lease.
pub type FenceView = Map<Seq<char>, LeaseView>;

/// What an acquire at `now` answers: a fresh lease carrying `token` when the
/// link is free or its lease expired, else the lease that holds it.
pub open spec fn acquire_result(
    m: FenceView,
    agent: Seq<char>,
    link: Seq<char>,
    ttl_secs: u64,
    now: u64,
    token: Seq<char>,
) -> Result<LeaseView, LeaseView> {
    if m.contains_key(link) && !m[link].expired_at(now) {
        Err(m[link])
    } else {
        Ok(LeaseView { holder: agent, link, token, issued_at: now, ttl_secs })
    }
}

/// The fence's state after that acquire.
pub open spec fn after_acquire(
    m: FenceView,
    agent: Seq<char>,
    link: Seq<char>,
    ttl_secs: u64,
    now: u64,
    token: Seq<char>,
) -> FenceView {
    match acquire_result(m, agent, link, ttl_secs, now, token) {
        Ok(l) => m.insert(link, l),
        Err(_) => m,
    }
}

/// A release succeeds exactly when the link's lease carries `token`.
pub open spec fn release_result(m: FenceView, link: Seq<char>, token: Seq<char>) -> bool {
    m.contains_key(link) && m[link].token == token
}

pub open spec fn after_release(m: FenceView, link: Seq<char>, token: Seq<char>) -> FenceView {
    if release_result(m, link, token) {
        m.remove(link)
    } else {
        m
    }
}

pub struct Fence {
    lease: AssocMap<String, Lease>,
}

impl View for Fence {
    type V = FenceView;

    closed spec fn view(&self) -> FenceView {
        self.lease.map().map_values(|l: Lease| l@)
    }
}

impl Fence {
    /// Every lease sits under its own link.
    pub closed spec fn wf(&self) -> bool {
        &&& self.lease.wf()
        &&& forall|k: Seq<char>| #[trigger]
            self.lease.map().contains_key(k) ==> self.lease.map()[k].link@ == k
    }

    pub fn new() -> (r: Self)
        ensures
            r.wf(),
            r@ == Map::<Seq<char>, LeaseView>::empty(),
    {
        let r = Fence { lease: AssocMap::new() };
        assert(r@ =~= Map::<Seq<char>, LeaseView>::empty());
        r
    }

    /// Acquire at a given time with a given token (see `acquire_result`).
    pub fn acquire_at(
        &mut self,
        agent: &str,
        link: &str,
        ttl_secs: u64,
        now: u64,
        token: String,
    ) -> (r: Result<Lease, Lease>)
        requires
            old(self).wf(),
        ensures
            final(self).wf(),
            final(self)@ == after_acquire(old(self)@, agent@, link@, ttl_secs, now, token@),
            match r {
                Ok(l) => acquire_result(old(self)@, agent@, link@, ttl_secs, now, token@) == Ok::<
                    LeaseView,
                    LeaseView,
                >(l@),
                Err(l) => acquire_result(old(self)@, agent@, link@, ttl_secs, now, token@) == Err::<
                    LeaseView,
                    LeaseView,
                >(l@),
            },
    {
        let key = String::from_str(link);
        match self.lease.get(&key) {
            Some(held) => {
                if !held.expired(now) {
                    let r = held.clone();
                    proof {
                        self.lemma_view_at(link@);
                    }
                    return Err(r);
                }
            },
            None => {},
        }
        proof {
            self.lemma_view_at(link@);
        }
        let lease = Lease {
            holder: String::from_str(agent),
            link: String::from_str(link),
            token,
            issued_at: now,
            ttl_secs,
        };
        let out = lease.clone();
        self.lease.insert(key, lease);
        proof {
            assert(self@ =~= old(self)@.insert(link@, out@));
        }
        Ok(out)
    }

    proof fn lemma_view_at(&self, k: Seq<char>)
        ensures
            self@.contains_key(k) == self.lease.map().contains_key(k),
            self.lease.map().contains_key(k) ==> self@[k] == self.lease.map()[k]@,
    {
    }

    /// Attempt to acquire the fence for a throughput probe. Succeeds if idle or
    /// the previous lease expired, with a fresh token; otherwise returns the
    /// lease that holds the link. The time and the token are read here.
    pub fn acquire(&mut self, agent: &str, link: &str, ttl_secs: u64) -> (r: Result<Lease, Lease>)
        requires
            old(self).wf(),
        ensures
            final(self).wf(),
            match r {
                Ok(l) => {
                    &&& l.holder@ == agent@
                    &&& l.link@ == link@
                    &&& l.ttl_secs == ttl_secs
                    &&& acquire_result(old(self)@, agent@, link@, ttl_secs, l.issued_at, l.token@)
                        == Ok::<LeaseView, LeaseView>(l@)
                    &&& final(self)@ == old(self)@.insert(link@, l@)
                    &&& crate::clock::uuid_v4_text(l.token@)
                },
                Err(l) => {
                    &&& old(self)@.contains_key(link@)
                    &&& old(self)@[link@] == l@
                    &&& exists|now: u64| !#[trigger] l@.expired_at(now)
                    &&& final(self)@ == old(self)@
                },
            },
    {
        let now = crate::clock::wall_clock_secs();
        let token = crate::clock::uuid4();
        let r = self.acquire_at(agent, link, ttl_secs, now, token);
        proof {
            if r is Err {
                assert(!r->Err_0@.expired_at(now));
            }
        }
        r
    }

    /// Release a lease if the token matches.
    pub fn release(&mut self, link: &str, token: &str) -> (r: bool)
        requires
            old(self).wf(),
        ensures
            final(self).wf(),
            r == release_result(old(self)@, link@, token@),
            final(self)@ == after_release(old(self)@, link@, token@),
    {
        let key = String::from_str(link);
        let matches = match self.lease.get(&key) {
            Some(l) => crate::text::str_eq(l.token.as_str(), token),
            None => false,
        };
        proof {
            self.lemma_view_at(link@);
        }
        if matches {
            self.lease.remove(&key);
            proof {
                assert(self@ =~= old(self)@.remove(link@));
            }
            true
        } else {
            false
        }
    }

    /// Non-destructive snapshot of all leases (for `/v1/status`).
    pub fn leases(&self) -> (r: Vec<Lease>)
        requires
            self.wf(),
        ensures
            forall|i: int| 0 <= i < r@.len() ==> #[trigger] self@.contains_key(r@[i].link@) && self@[r@[i].link@] == r@[i]@,
            forall|k: Seq<char>| #[trigger] self@.contains_key(k) ==> exists|i: int| 0 <= i < r@.len() && #[trigger] r@[i].link@ == k,
            forall|i: int, j: int| 0 <= i < j < r@.len() ==> r@[i].link@ != r@[j].link@,
    {
        let mut out: Vec<Lease> = Vec::new();
        let n = self.lease.len();
        let mut i: usize = 0;
        while i < n
            invariant
                self.wf(),
                n == self.lease.seq().len(),
                i <= n,
                out@.len() == i,
                forall|j: int| 0 <= j < i ==> #[trigger] out@[j] == self.lease.seq()[j].1,
            decreases n - i,
        {
            let e = self.lease.entry(i);
            out.push(e.1.clone());
            i = i + 1;
        }
        proof {
            assert forall|j: int| 0 <= j < out@.len() implies #[trigger] self@.contains_key(out@[j].link@) && self@[out@[j].link@] == out@[j]@ by {
                self.lease.lemma_index_of(j);
                self.lemma_view_at(self.lease.key_at(j));
            }
            assert forall|k: Seq<char>| #[trigger] self@.contains_key(k) implies exists|j: int| 0 <= j < out@.len() && #[trigger] out@[j].link@ == k by {
                self.lease.lemma_map_domain();
                let j = self.lease.index_of(k);
                assert(out@[j].link@ == k);
            }
            assert forall|a: int, b: int| 0 <= a < b < out@.len() implies out@[a].link@ != out@[b].link@ by {
                self.lease.lemma_index_of(a);
                self.lease.lemma_index_of(b);
                assert(self.lease.key_at(a) != self.lease.key_at(b));
            }
        }
        out
    }
}

impl Default for Fence {
    fn default() -> (r: Self)
        ensures
            r.wf(),
            r@ == Map::<Seq<char>, LeaseView>::empty(),
    {
        Self::new()
    }
}

impl Lease {
    pub fn expired(&self, now: u64) -> (r: bool)
        ensures
            r == self@.expired_at(now),
    {
        now.saturating_sub(self.issued_at) >= self.ttl_secs
    }

    /// What the agent should report if it overlaps an existing lease.
    pub fn overlap_state(&self) -> (r: ProbeState)
        ensures
            r == ProbeState::Conflict,
    {
        ProbeState::Conflict
    }
}

/// While a granted lease is live (its ttl not yet elapsed), a second acquire
/// of the same link fails and names the first holder; no two agents hold a
/// link's fence at the same time.
pub proof fn law_lease_excludes_others(
    m: FenceView,
    a: Seq<char>,
    b: Seq<char>,
    link: Seq<char>,
    ttl_a: u64,
    ttl_b: u64,
    now_a: u64,
    now_b: u64,
    token_a: Seq<char>,
    token_b: Seq<char>,
)
    requires
        acquire_result(m, a, link, ttl_a, now_a, token_a) is Ok,
        now_a <= now_b < now_a + ttl_a,
    ensures
        acquire_result(after_acquire(m, a, link, ttl_a, now_a, token_a), b, link, ttl_b, now_b, token_b)
            == Err::<LeaseView, LeaseView>(
            LeaseView { holder: a, link, token: token_a, issued_at: now_a, ttl_secs: ttl_a },
        ),
        after_acquire(after_acquire(m, a, link, ttl_a, now_a, token_a), b, link, ttl_b, now_b, token_b)
            == after_acquire(m, a, link, ttl_a, now_a, token_a),
{
}

/// Once a lease's ttl has elapsed without release, another agent can take
/// the link over.
pub proof fn law_expired_lease_taken_over(
    m: FenceView,
    a: Seq<char>,
    b: Seq<char>,
    link: Seq<char>,
    ttl_a: u64,
    ttl_b: u64,
    now_a: u64,
    now_b: u64,
    token_a: Seq<char>,
    token_b: Seq<char>,
)
    requires
        acquire_result(m, a, link, ttl_a, now_a, token_a) is Ok,
        now_b >= now_a + ttl_a,
    ensures
        acquire_result(after_acquire(m, a, link, ttl_a, now_a, token_a), b, link, ttl_b, now_b, token_b)
            == Ok::<LeaseView, LeaseView>(
            LeaseView { holder: b, link, token: token_b, issued_at: now_b, ttl_secs: ttl_b },
        ),
{
}

/// A release with any other token than the lease's own changes nothing; a
/// release with the lease's token frees the link, so the next acquire
/// succeeds at any time.
pub proof fn law_release_needs_token(
    m: FenceView,
    a: Seq<char>,
    b: Seq<char>,
    link: Seq<char>,
    ttl_a: u64,
    ttl_b: u64,
    now_a: u64,
    now_b: u64,
    token_a: Seq<char>,
    token_b: Seq<char>,
    other: Seq<char>,
)
    requires
        acquire_result(m, a, link, ttl_a, now_a, token_a) is Ok,
        other != token_a,
    ensures
        !release_result(after_acquire(m, a, link, ttl_a, now_a, token_a), link, other),
        after_release(after_acquire(m, a, link, ttl_a, now_a, token_a), link, other)
            == after_acquire(m, a, link, ttl_a, now_a, token_a),
        release_result(after_acquire(m, a, link, ttl_a, now_a, token_a), link, token_a),
        acquire_result(
            after_release(after_acquire(m, a, link, ttl_a, now_a, token_a), link, token_a),
            b,
            link,
            ttl_b,
            now_b,
            token_b,
        ) is Ok,
{
}

/// Acquiring or releasing one link never touches another link's lease.
pub proof fn law_links_independent(
    m: FenceView,
    a: Seq<char>,
    link: Seq<char>,
    other: Seq<char>,
    ttl: u64,
    now: u64,
    token: Seq<char>,
)
    requires
        link != other,
    ensures
        after_acquire(m, a, link, ttl, now, token).contains_key(other) == m.contains_key(other),
        m.contains_key(other) ==> after_acquire(m, a, link, ttl, now, token)[other] == m[other],
        after_release(m, link, token).contains_key(other) == m.contains_key(other),
        m.contains_key(other) ==> after_release(m, link, token)[other] == m[other],
{
}

} // verus!

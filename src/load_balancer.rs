use vstd::prelude::*;

use crate::pool::{cycle_outcomes, lemma_wrap_step, wrap_add, PoolState};
use crate::probe::{probe_healthy, ProbeReply};

verus! {

/// One proxy target.
#[derive(Debug, Clone)]
pub struct Server {
    /// Human-readable identifier, for diagnostics.
    pub id: String,
    /// `host:port` that proxied connections are opened to.
    pub url: String,
    /// `host:port` that the health prober connects to.
    pub health_check_url: String,
    /// Set by the health prober, read by the selector.
    pub healthy: bool,
}

impl Server {
    /// A backend that has not been probed yet: it starts out unhealthy.
    pub fn new(id: String, url: String, health_check_url: String) -> (r: Server)
        ensures
            r.id == id,
            r.url == url,
            r.health_check_url == health_check_url,
            !r.healthy,
    {
        Server { id, url, health_check_url, healthy: false }
    }

    /// This backend after a health update for `url`.
    pub open spec fn with_health(self, url: Seq<char>, healthy: bool) -> Server {
        if self.url@ == url {
            Server { healthy: healthy, ..self }
        } else {
            self
        }
    }

    fn copied(&self) -> (r: Server)
        ensures
            r == *self,
    {
        Server {
            id: self.id.clone(),
            url: self.url.clone(),
            health_check_url: self.health_check_url.clone(),
            healthy: self.healthy,
        }
    }
}

/// The registry of backends with the round-robin cursor.
pub struct LoadBalancer {
    servers: Vec<Server>,
    last_server: u32,
}

impl View for LoadBalancer {
    type V = PoolState;

    closed spec fn view(&self) -> PoolState {
        PoolState { backends: self.servers@, cursor: self.last_server }
    }
}

impl LoadBalancer {
    /// A registry over `servers`, in that order, with the cursor at zero.
    pub fn new(servers: Vec<Server>) -> (r: LoadBalancer)
        ensures
            r@.backends == servers@,
            r@.cursor == 0,
    {
        LoadBalancer { servers, last_server: 0 }
    }

    /// The backends in their fixed order.
    pub fn servers(&self) -> (r: &Vec<Server>)
        ensures
            r@ == self@.backends,
    {
        &self.servers
    }

    /// Sets the health flag of every backend whose address is `url`; an
    /// unknown address changes nothing.
    pub fn update_health(&mut self, url: &String, healthy: bool)
        ensures
            final(self)@ == old(self)@.with_health(url@, healthy),
    {
        let ghost start = self@;
        let ghost target = start.with_health(url@, healthy);
        let length = self.servers.len();
        let mut i: usize = 0;
        while i < length
            invariant
                target == start.with_health(url@, healthy),
                length == self.servers.len(),
                length == start.backends.len(),
                self.last_server == start.cursor,
                i <= length,
                forall|j: int| 0 <= j < i ==> self.servers@[j] == target.backends[j],
                forall|j: int| i <= j < length ==> self.servers@[j] == start.backends[j],
            decreases length - i,
        {
            assert(target.backends[i as int] == start.backends[i as int].with_health(url@, healthy));
            if self.servers[i].url == *url {
                let mut s = self.servers[i].copied();
                s.healthy = healthy;
                self.servers.set(i, s);
            }
            i += 1;
        }
        assert(self@.backends =~= target.backends);
    }

    /// Applies the outcomes of one probe cycle, in order, as
    /// [`LoadBalancer::update_health`] does.
    pub fn apply_outcomes(&mut self, outcomes: &Vec<(String, bool)>)
        ensures
            final(self)@ == old(self)@.merged(outcomes@),
    {
        let ghost start = self@;
        let mut i: usize = 0;
        while i < outcomes.len()
            invariant
                i <= outcomes.len(),
                self@ == start.merged(outcomes@.take(i as int)),
            decreases outcomes.len() - i,
        {
            assert(outcomes@.take(i + 1).drop_last() =~= outcomes@.take(i as int));
            self.update_health(&outcomes[i].0, outcomes[i].1);
            i += 1;
        }
        assert(outcomes@.take(i as int) =~= outcomes@);
    }

    /// Completes one probe cycle: `replies` holds, for each backend probed,
    /// its address and what its probe came back with. Each reply becomes an
    /// outcome, and the outcomes are merged into the registry in order.
    pub fn health_check(&mut self, replies: &Vec<(String, ProbeReply)>)
        ensures
            final(self)@ == old(self)@.merged(cycle_outcomes(replies@)),
    {
        let mut outcomes: Vec<(String, bool)> = Vec::new();
        let mut i: usize = 0;
        while i < replies.len()
            invariant
                i <= replies.len(),
                outcomes@ =~= cycle_outcomes(replies@.take(i as int)),
            decreases replies.len() - i,
        {
            let healthy = probe_healthy(&replies[i].1);
            outcomes.push((replies[i].0.clone(), healthy));
            i += 1;
        }
        assert(replies@.take(i as int) =~= replies@);
        self.apply_outcomes(&outcomes);
    }

    /// Round-robin selection that skips unhealthy backends. Each attempt
    /// advances the cursor and looks at the backend it lands on, modulo the
    /// pool size; after as many attempts as there are backends it gives up.
    pub fn choose_server(&mut self) -> (r: Option<Server>)
        ensures
            r == old(self)@.selected(),
            final(self)@ == old(self)@.after_select(),
            r matches Some(s) ==> s.healthy,
    {
        let ghost start = self@;
        let length = self.servers.len();
        let mut tries: usize = 0;
        while tries < length
            invariant
                start == old(self)@,
                length == self.servers.len(),
                self.servers@ == start.backends,
                tries <= length,
                self.last_server == wrap_add(start.cursor, tries as int),
                start.first_hit(0) == start.first_hit(tries as int),
            decreases length - tries,
        {
            let index = (self.last_server as usize) % length;
            proof {
                lemma_wrap_step(start.cursor, tries as int);
            }
            self.last_server = self.last_server.wrapping_add(1);
            tries += 1;
            if self.servers[index].healthy {
                return Some(self.servers[index].copied());
            }
        }
        None
    }
}

} // verus!

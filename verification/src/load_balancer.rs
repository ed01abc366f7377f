//! The backend pool and the dispatch algorithm engine.
//!
//! The pool holds an ordered, fixed list of backends, a cursor, the
//! algorithm in force and the time of the last supervisor-driven change,
//! modelled in milliseconds. Picking a backend first runs the supervisor,
//! which may swap the algorithm, though never more often than once per
//! five seconds.

use crate::balancing_algorithm::BalancingAlgorithm;
use crate::server::{lemma_server_connections_nonneg, Server, ServerView};
use crate::text::str_eq;
use vstd::prelude::*;

verus! {

/// Milliseconds that must pass between supervisor-driven algorithm changes.
pub const MIN_MILLIS_BETWEEN_ALGO_CHANGES: u64 = 5000;

/// The abstract state of the pool.
pub ghost struct LoadBalancerView {
    pub servers: Seq<ServerView>,
    pub cursor: int,
    pub algorithm: BalancingAlgorithm,
    pub last_check: int,
}

impl LoadBalancerView {
    pub open spec fn wf(self) -> bool {
        &&& self.servers.len() >= 1
        &&& 0 <= self.cursor < self.servers.len()
        &&& 0 <= self.last_check
        &&& forall|i: int|
            0 <= i < self.servers.len() ==> (#[trigger] self.servers[i]).connections >= 0
    }
}

/// The first index among the first `k` servers with the fewest connections.
pub open spec fn least_index_upto(s: Seq<ServerView>, k: int) -> int
    decreases k,
{
    if k <= 1 {
        0
    } else {
        let r = least_index_upto(s, k - 1);
        if s[k - 1].connections < s[r].connections {
            k - 1
        } else {
            r
        }
    }
}

/// The earliest index with the fewest connections, the stable minimum.
pub open spec fn least_index(s: Seq<ServerView>) -> int {
    least_index_upto(s, s.len() as int)
}

/// The largest connection count among the first `k` servers.
pub open spec fn max_conn_upto(s: Seq<ServerView>, k: int) -> int
    decreases k,
{
    if k <= 1 {
        s[0].connections
    } else {
        let m = max_conn_upto(s, k - 1);
        if s[k - 1].connections > m {
            s[k - 1].connections
        } else {
            m
        }
    }
}

pub open spec fn max_conn(s: Seq<ServerView>) -> int {
    max_conn_upto(s, s.len() as int)
}

pub open spec fn min_conn(s: Seq<ServerView>) -> int {
    s[least_index(s)].connections
}

/// The algorithm the supervisor would prefer for the present pool state.
pub open spec fn recommended_algo(v: LoadBalancerView) -> BalancingAlgorithm {
    match v.algorithm {
        BalancingAlgorithm::RoundRobin => {
            if max_conn(v.servers) - min_conn(v.servers) > 3 {
                BalancingAlgorithm::LeastConnections
            } else {
                BalancingAlgorithm::RoundRobin
            }
        },
        BalancingAlgorithm::LeastConnections => {
            if least_index(v.servers) == v.cursor {
                BalancingAlgorithm::RoundRobin
            } else {
                BalancingAlgorithm::LeastConnections
            }
        },
    }
}

/// What the supervisor makes of the pool at time `now`: it applies its
/// recommendation only when the pool has more than one backend, at least
/// five seconds have passed since the last change, and the recommendation
/// differs from the algorithm in force.
pub open spec fn supervise_spec(v: LoadBalancerView, now: int) -> LoadBalancerView {
    if v.servers.len() == 1 {
        v
    } else if now - v.last_check < MIN_MILLIS_BETWEEN_ALGO_CHANGES {
        v
    } else if recommended_algo(v) == v.algorithm {
        v
    } else {
        LoadBalancerView { algorithm: recommended_algo(v), last_check: now, ..v }
    }
}

/// The index a pick chooses under the algorithm in force.
pub open spec fn pick_index_spec(v: LoadBalancerView) -> int {
    match v.algorithm {
        BalancingAlgorithm::RoundRobin => v.cursor,
        BalancingAlgorithm::LeastConnections => least_index(v.servers),
    }
}

/// The pool after a pick, and the chosen index: the chosen backend's
/// counter goes up by one; round-robin advances the cursor by one place,
/// least-connections parks it on the choice.
pub open spec fn pick_spec(v: LoadBalancerView) -> (LoadBalancerView, int) {
    let i = pick_index_spec(v);
    let srv = v.servers[i];
    let servers2 = v.servers.update(i, ServerView { connections: srv.connections + 1, ..srv });
    match v.algorithm {
        BalancingAlgorithm::RoundRobin => (
            LoadBalancerView {
                servers: servers2,
                cursor: (v.cursor + 1) % (v.servers.len() as int),
                ..v
            },
            i,
        ),
        BalancingAlgorithm::LeastConnections => (
            LoadBalancerView { servers: servers2, cursor: i, ..v },
            i,
        ),
    }
}

/// A full pick: the supervisor runs first, then the algorithm in force.
pub open spec fn next_server_spec(v: LoadBalancerView, now: int) -> (LoadBalancerView, int) {
    pick_spec(supervise_spec(v, now))
}

/// The first index at or after `k` whose server has the given address.
pub open spec fn find_index(s: Seq<ServerView>, addr: Seq<char>, k: int) -> Option<int>
    decreases s.len() - k,
{
    if k < 0 || k >= s.len() {
        None
    } else if s[k].address == addr {
        Some(k)
    } else {
        find_index(s, addr, k + 1)
    }
}

/// The pool after releasing one in-flight request by backend address:
/// the first backend with that address has its counter lowered by one,
/// to no less than zero; an unknown address changes nothing.
pub open spec fn release_spec(v: LoadBalancerView, addr: Seq<char>) -> LoadBalancerView {
    match find_index(v.servers, addr, 0) {
        None => v,
        Some(i) => {
            let srv = v.servers[i];
            let c = if srv.connections > 0 {
                srv.connections - 1
            } else {
                0
            };
            LoadBalancerView {
                servers: v.servers.update(i, ServerView { connections: c, ..srv }),
                ..v
            }
        },
    }
}

/// The dispatcher's pool of backends with its dispatch state.
#[derive(Debug)]
pub struct LoadBalancer {
    servers: Vec<Server>,
    current_server: usize,
    algorithm: BalancingAlgorithm,
    last_check: u64,
}

impl View for LoadBalancer {
    type V = LoadBalancerView;

    closed spec fn view(&self) -> LoadBalancerView {
        LoadBalancerView {
            servers: Seq::new(self.servers@.len(), |i: int| self.servers@[i]@),
            cursor: self.current_server as int,
            algorithm: self.algorithm,
            last_check: self.last_check as int,
        }
    }
}

impl LoadBalancer {
    /// Builds a pool over the given backends with the cursor at the start,
    /// round-robin in force, and the given time as the last-change mark;
    /// an empty list is rejected.
    pub fn new_at(servers: Vec<Server>, now_ms: u64) -> (r: Result<LoadBalancer, String>)
        ensures
            r is Ok <==> servers@.len() > 0,
            r matches Ok(lb) ==> {
                &&& lb@.servers.len() == servers@.len()
                &&& forall|i: int| 0 <= i < servers@.len() ==> lb@.servers[i] == servers@[i]@
                &&& lb@.cursor == 0
                &&& lb@.algorithm == BalancingAlgorithm::RoundRobin
                &&& lb@.last_check == now_ms as int
                &&& lb@.wf()
            },
            servers@.len() == 0 ==> (r matches Err(m) && m@ == "At least one server is required"@),
    {
        if servers.len() == 0 {
            return Err(String::from_str("At least one server is required"));
        }
        let lb = LoadBalancer {
            servers,
            current_server: 0,
            algorithm: BalancingAlgorithm::RoundRobin,
            last_check: now_ms,
        };
        proof {
            assert forall|j: int| 0 <= j < lb@.servers.len() implies (
            #[trigger] lb@.servers[j]).connections >= 0 by {
                lemma_server_connections_nonneg(&lb.servers[j]);
            }
        }
        Ok(lb)
    }

    /// Builds a pool as `new_at`, marked with the wall clock's present time.
    pub fn new(servers: Vec<Server>) -> (r: Result<LoadBalancer, String>)
        ensures
            r is Ok <==> servers@.len() > 0,
            r matches Ok(lb) ==> {
                &&& lb@.servers.len() == servers@.len()
                &&& forall|i: int| 0 <= i < servers@.len() ==> lb@.servers[i] == servers@[i]@
                &&& lb@.cursor == 0
                &&& lb@.algorithm == BalancingAlgorithm::RoundRobin
                &&& lb@.last_check >= 0
                &&& lb@.wf()
            },
            servers@.len() == 0 ==> (r matches Err(m) && m@ == "At least one server is required"@),
    {
        let now: u64 = now_millis();
        LoadBalancer::new_at(servers, now)
    }

    /// Puts the given algorithm in force at once. This is the operator
    /// override: it does not touch the last-change mark.
    pub fn set_algorithm(&mut self, algorithm: BalancingAlgorithm)
        ensures
            final(self)@.algorithm == algorithm,
            final(self)@.servers == old(self)@.servers,
            final(self)@.cursor == old(self)@.cursor,
            final(self)@.last_check == old(self)@.last_check,
    {
        self.algorithm = algorithm;
    }

    /// How many backends the pool holds.
    pub fn server_count(&self) -> (n: usize)
        ensures
            n == self@.servers.len(),
    {
        self.servers.len()
    }

    /// The address of the backend at the given index.
    pub fn address_of(&self, i: usize) -> (r: String)
        requires
            i < self@.servers.len(),
        ensures
            r@ == self@.servers[i as int].address,
    {
        String::from_str(self.servers[i].get_address())
    }

    /// The live connection count of the backend at the given index.
    pub fn connections_of(&self, i: usize) -> (r: usize)
        requires
            i < self@.servers.len(),
        ensures
            r as int == self@.servers[i as int].connections,
    {
        self.servers[i].get_connections()
    }

    /// The algorithm presently in force.
    pub fn algorithm(&self) -> (a: BalancingAlgorithm)
        ensures
            a == self@.algorithm,
    {
        self.algorithm
    }

    /// The index of the first backend whose address equals the given one,
    /// compared exactly and case-sensitively.
    pub fn get_server_by_address(&self, address: &str) -> (r: Option<usize>)
        ensures
            r is Some ==> find_index(self@.servers, address@, 0) == Some(r->0 as int),
            r is None ==> find_index(self@.servers, address@, 0) is None,
    {
        let n: usize = self.servers.len();
        let mut k: usize = 0;
        while k < n
            invariant
                n == self@.servers.len(),
                n == self.servers@.len(),
                0 <= k <= n,
                forall|j: int| 0 <= j < self@.servers.len() ==> self@.servers[j].address
                    == self.servers@[j]@.address,
                find_index(self@.servers, address@, 0) == find_index(self@.servers, address@, k as int),
            decreases n - k,
        {
            if str_eq(self.servers[k].get_address(), address) {
                return Some(k);
            }
            k = k + 1;
        }
        None
    }

    /// Releases one in-flight request on the backend with the given
    /// address; an unknown address changes nothing.
    pub fn release_connection(&mut self, address: &str)
        ensures
            final(self)@ == release_spec(old(self)@, address@),
    {
        let found = self.get_server_by_address(address);
        match found {
            None => {
                proof {
                    assert(release_spec(self@, address@) == self@);
                }
            },
            Some(i) => {
                proof {
                    lemma_find_index_in_range(self@.servers, address@, 0);
                }
                let mut srv = self.servers.remove(i);
                srv.decrement_connections();
                self.servers.insert(i, srv);
                proof {
                    let oldv = old(self)@;
                    let i0 = i as int;
                    let osrv = oldv.servers[i0];
                    let c = if osrv.connections > 0 {
                        osrv.connections - 1
                    } else {
                        0
                    };
                    assert(final(self)@.servers =~= oldv.servers.update(
                        i0,
                        ServerView { connections: c, ..osrv },
                    ));
                }
            },
        }
    }
}

/// A found index lies within the sequence.
pub proof fn lemma_find_index_in_range(s: Seq<ServerView>, addr: Seq<char>, k: int)
    ensures
        find_index(s, addr, k) matches Some(i) ==> k <= i < s.len() && s[i].address == addr,
    decreases s.len() - k,
{
    if 0 <= k < s.len() && s[k].address != addr {
        lemma_find_index_in_range(s, addr, k + 1);
    }
}

/// The first index with the fewest connections among the first `k` is in
/// range, no later element of the prefix is strictly smaller, and every
/// earlier element is strictly larger.
pub proof fn lemma_least_index_upto(s: Seq<ServerView>, k: int)
    requires
        1 <= k <= s.len(),
    ensures
        0 <= least_index_upto(s, k) < k,
        forall|j: int|
            0 <= j < k ==> s[least_index_upto(s, k)].connections <= (#[trigger] s[j]).connections,
        forall|j: int|
            0 <= j < least_index_upto(s, k) ==> (#[trigger] s[j]).connections > s[least_index_upto(
                s,
                k,
            )].connections,
    decreases k,
{
    if k > 1 {
        lemma_least_index_upto(s, k - 1);
    }
}

/// The largest connection count among the first `k` bounds the prefix and
/// is attained in it.
pub proof fn lemma_max_conn_upto(s: Seq<ServerView>, k: int)
    requires
        1 <= k <= s.len(),
    ensures
        forall|j: int| 0 <= j < k ==> (#[trigger] s[j]).connections <= max_conn_upto(s, k),
        exists|j: int| 0 <= j < k && (#[trigger] s[j]).connections == max_conn_upto(s, k),
    decreases k,
{
    if k > 1 {
        lemma_max_conn_upto(s, k - 1);
        if s[k - 1].connections > max_conn_upto(s, k - 1) {
            assert(s[k - 1].connections == max_conn_upto(s, k));
        }
    } else {
        assert(s[0].connections == max_conn_upto(s, k));
    }
}

impl LoadBalancer {
    /// The earliest index among all backends with the fewest connections.
    fn least_connected_index(&self) -> (r: usize)
        requires
            self@.servers.len() >= 1,
        ensures
            r as int == least_index(self@.servers),
            r < self@.servers.len(),
    {
        let n: usize = self.servers.len();
        let mut best: usize = 0;
        let mut k: usize = 1;
        while k < n
            invariant
                n == self.servers@.len(),
                n == self@.servers.len(),
                n >= 1,
                1 <= k <= n,
                best < k,
                best as int == least_index_upto(self@.servers, k as int),
                forall|j: int| 0 <= j < self@.servers.len() ==> self@.servers[j]
                    == self.servers@[j]@,
            decreases n - k,
        {
            if self.servers[k].get_connections() < self.servers[best].get_connections() {
                best = k;
            }
            k = k + 1;
        }
        proof {
            lemma_least_index_upto(self@.servers, n as int);
        }
        best
    }

    /// The largest connection count in the pool.
    fn max_connections(&self) -> (r: usize)
        requires
            self@.servers.len() >= 1,
        ensures
            r as int == max_conn(self@.servers),
    {
        let n: usize = self.servers.len();
        let mut m: usize = self.servers[0].get_connections();
        let mut k: usize = 1;
        while k < n
            invariant
                n == self.servers@.len(),
                n == self@.servers.len(),
                n >= 1,
                1 <= k <= n,
                m as int == max_conn_upto(self@.servers, k as int),
                forall|j: int| 0 <= j < self@.servers.len() ==> self@.servers[j]
                    == self.servers@[j]@,
            decreases n - k,
        {
            let c: usize = self.servers[k].get_connections();
            if c > m {
                m = c;
            }
            k = k + 1;
        }
        m
    }

    /// Raises the counter of the backend at `i` by one.
    fn bump_connections_at(&mut self, i: usize)
        requires
            i < old(self)@.servers.len(),
            old(self)@.servers[i as int].connections < usize::MAX,
        ensures
            final(self)@.servers =~= old(self)@.servers.update(
                i as int,
                ServerView {
                    connections: old(self)@.servers[i as int].connections + 1,
                    ..old(self)@.servers[i as int]
                },
            ),
            final(self)@.cursor == old(self)@.cursor,
            final(self)@.algorithm == old(self)@.algorithm,
            final(self)@.last_check == old(self)@.last_check,
    {
        let mut srv = self.servers.remove(i);
        srv.increment_connections();
        self.servers.insert(i, srv);
    }

    /// Runs the supervisor: computes the recommendation from the pool
    /// state and applies it when the rate limit allows and it differs
    /// from the algorithm in force.
    fn check_conditions_and_set_best_algo(&mut self, now_ms: u64)
        requires
            old(self)@.wf(),
        ensures
            final(self)@ == supervise_spec(old(self)@, now_ms as int),
    {
        let n: usize = self.servers.len();
        if n == 1 {
            return;
        }
        let mut recommended = self.algorithm;
        match self.algorithm {
            BalancingAlgorithm::RoundRobin => {
                let maxc: usize = self.max_connections();
                let least: usize = self.least_connected_index();
                let minc: usize = self.servers[least].get_connections();
                proof {
                    lemma_max_conn_upto(self@.servers, n as int);
                    lemma_least_index_upto(self@.servers, n as int);
                }
                if maxc - minc > 3 {
                    recommended = BalancingAlgorithm::LeastConnections;
                }
            },
            BalancingAlgorithm::LeastConnections => {
                let least: usize = self.least_connected_index();
                if least == self.current_server {
                    recommended = BalancingAlgorithm::RoundRobin;
                }
            },
        }
        proof {
            assert(recommended == recommended_algo(old(self)@));
        }
        if now_ms <= self.last_check || now_ms - self.last_check
            < MIN_MILLIS_BETWEEN_ALGO_CHANGES {
            return;
        }
        if recommended == self.algorithm {
            return;
        }
        self.set_algorithm(recommended);
        self.last_check = now_ms;
    }

    /// Whether the pool is fit for a pick: well formed, with every
    /// counter still below the machine limit.
    pub fn can_pick(&self) -> (r: bool)
        ensures
            r == (self@.wf() && forall|j: int|
                0 <= j < self@.servers.len() ==> (#[trigger] self@.servers[j]).connections
                    < usize::MAX),
    {
        let n: usize = self.servers.len();
        if n == 0 {
            return false;
        }
        if self.current_server >= n {
            return false;
        }
        let mut k: usize = 0;
        while k < n
            invariant
                n == self.servers@.len(),
                n == self@.servers.len(),
                0 <= k <= n,
                forall|j: int| 0 <= j < self@.servers.len() ==> self@.servers[j]
                    == self.servers@[j]@,
                forall|j: int| 0 <= j < k ==> (#[trigger] self@.servers[j]).connections
                    < usize::MAX,
            decreases n - k,
        {
            if self.servers[k].get_connections() == usize::MAX {
                proof {
                    assert(self@.servers[k as int].connections == usize::MAX);
                }
                return false;
            }
            k = k + 1;
        }
        proof {
            assert forall|j: int| 0 <= j < self@.servers.len() implies (
            #[trigger] self@.servers[j]).connections >= 0 by {
                assert(self@.servers[j] == self.servers@[j]@);
                lemma_server_connections_nonneg(&self.servers[j]);
            }
        }
        true
    }

    /// Picks the next backend at time `now_ms`: the supervisor runs
    /// first, then the algorithm in force chooses, and the chosen
    /// backend's counter goes up by one.
    pub fn next_server_at(&mut self, now_ms: u64) -> (i: usize)
        requires
            old(self)@.wf(),
            forall|j: int| 0 <= j < old(self)@.servers.len() ==> (#[trigger] old(
                self,
            )@.servers[j]).connections < usize::MAX,
        ensures
            final(self)@ == next_server_spec(old(self)@, now_ms as int).0,
            i as int == next_server_spec(old(self)@, now_ms as int).1,
            i < final(self)@.servers.len(),
            final(self)@.wf(),
    {
        self.check_conditions_and_set_best_algo(now_ms);
        let ghost v1 = self@;
        match self.algorithm {
            BalancingAlgorithm::RoundRobin => {
                let i: usize = self.current_server;
                let n: usize = self.servers.len();
                self.current_server = (i + 1) % n;
                self.bump_connections_at(i);
                proof {
                    assert(final(self)@ == pick_spec(v1).0);
                }
                i
            },
            BalancingAlgorithm::LeastConnections => {
                let i: usize = self.least_connected_index();
                self.current_server = i;
                self.bump_connections_at(i);
                proof {
                    lemma_least_index_upto(v1.servers, v1.servers.len() as int);
                    assert(final(self)@ == pick_spec(v1).0);
                }
                i
            },
        }
    }

    /// Picks the next backend at the wall clock's present time.
    pub fn next_server(&mut self) -> (i: usize)
        requires
            old(self)@.wf(),
            forall|j: int| 0 <= j < old(self)@.servers.len() ==> (#[trigger] old(
                self,
            )@.servers[j]).connections < usize::MAX,
        ensures
            exists|now: int|
                #![auto]
                0 <= now && final(self)@ == next_server_spec(old(self)@, now).0 && i as int
                    == next_server_spec(old(self)@, now).1,
            i < final(self)@.servers.len(),
            final(self)@.wf(),
    {
        let now: u64 = now_millis();
        let i: usize = self.next_server_at(now);
        proof {
            assert(0 <= now as int && final(self)@ == next_server_spec(old(self)@, now as int).0
                && i as int == next_server_spec(old(self)@, now as int).1);
        }
        i
    }
}

/// The pool-wide total of in-flight counters.
pub open spec fn total_connections(s: Seq<ServerView>) -> int
    decreases s.len(),
{
    if s.len() == 0 {
        0
    } else {
        total_connections(s.drop_last()) + s.last().connections
    }
}

/// Changing one element moves the total by the counter difference alone.
pub proof fn lemma_total_update(s: Seq<ServerView>, i: int, v: ServerView)
    requires
        0 <= i < s.len(),
    ensures
        total_connections(s.update(i, v)) == total_connections(s) + v.connections
            - s[i].connections,
    decreases s.len(),
{
    let s2 = s.update(i, v);
    if i == s.len() - 1 {
        assert(s2.drop_last() =~= s.drop_last());
        assert(s2.last() == v);
    } else {
        assert(s2.drop_last() =~= s.drop_last().update(i, v));
        assert(s2.last() == s.last());
        lemma_total_update(s.drop_last(), i, v);
    }
}

/// One pick raises the pool's total in-flight count by exactly one.
pub proof fn lemma_pick_raises_total(v: LoadBalancerView, now: int)
    requires
        v.wf(),
    ensures
        total_connections(next_server_spec(v, now).0.servers) == total_connections(v.servers) + 1,
{
    let v1 = supervise_spec(v, now);
    let i = pick_index_spec(v1);
    if v1.algorithm is LeastConnections {
        lemma_least_index_upto(v1.servers, v1.servers.len() as int);
    }
    lemma_total_update(
        v1.servers,
        i,
        ServerView { connections: v1.servers[i].connections + 1, ..v1.servers[i] },
    );
}

proof fn lemma_find_index_from(s: Seq<ServerView>, addr: Seq<char>, i: int, k: int)
    requires
        0 <= k <= i < s.len(),
        s[i].address == addr,
        forall|j: int| k <= j < i ==> (#[trigger] s[j]).address != addr,
    ensures
        find_index(s, addr, k) == Some(i),
    decreases i - k,
{
    if k < i {
        lemma_find_index_from(s, addr, i, k + 1);
    }
}

/// Counter balance: a pick followed by a release of the picked backend's
/// address restores the pool's total in-flight count, provided backend
/// addresses are pairwise distinct.
pub proof fn lemma_counter_balance(v: LoadBalancerView, now: int)
    requires
        v.wf(),
        forall|i: int, j: int|
            0 <= i < j < v.servers.len() ==> (#[trigger] v.servers[i]).address != (
            #[trigger] v.servers[j]).address,
    ensures
        ({
            let (v1, i) = next_server_spec(v, now);
            total_connections(release_spec(v1, v1.servers[i].address).servers)
                == total_connections(v.servers)
        }),
{
    let vs = supervise_spec(v, now);
    let (v1, i) = next_server_spec(v, now);
    if vs.algorithm is LeastConnections {
        lemma_least_index_upto(vs.servers, vs.servers.len() as int);
    }
    let addr = v1.servers[i].address;
    assert(addr == v.servers[i].address);
    assert forall|j: int| 0 <= j < i implies (#[trigger] v1.servers[j]).address != addr by {
        assert(v1.servers[j].address == v.servers[j].address);
    }
    lemma_find_index_from(v1.servers, addr, i, 0);
    assert(v1.servers[i].connections == v.servers[i].connections + 1);
    assert(v1.servers[i].connections > 0);
    lemma_pick_raises_total(v, now);
    let dec = ServerView { connections: v1.servers[i].connections - 1, ..v1.servers[i] };
    lemma_total_update(v1.servers, i, dec);
}

/// Non-negativity: neither a pick nor a release drives any backend's
/// counter below zero.
pub proof fn lemma_counters_nonnegative(v: LoadBalancerView, now: int, addr: Seq<char>)
    requires
        v.wf(),
    ensures
        forall|j: int|
            0 <= j < next_server_spec(v, now).0.servers.len() ==> (#[trigger] next_server_spec(
                v,
                now,
            ).0.servers[j]).connections >= 0,
        forall|j: int|
            0 <= j < release_spec(v, addr).servers.len() ==> (#[trigger] release_spec(
                v,
                addr,
            ).servers[j]).connections >= 0,
{
    let vs = supervise_spec(v, now);
    if vs.algorithm is LeastConnections {
        lemma_least_index_upto(vs.servers, vs.servers.len() as int);
    }
    lemma_find_index_in_range(v.servers, addr, 0);
}

/// Least-connections selection: with the algorithm pinned, a pick
/// returns a backend whose counter, before the increment, is the
/// pool-wide minimum.
pub proof fn lemma_least_connections_picks_min(v: LoadBalancerView)
    requires
        v.wf(),
        v.algorithm is LeastConnections,
    ensures
        ({
            let (v1, i) = pick_spec(v);
            &&& 0 <= i < v.servers.len()
            &&& forall|j: int|
                0 <= j < v.servers.len() ==> v.servers[i].connections <= (
                #[trigger] v.servers[j]).connections
        }),
{
    lemma_least_index_upto(v.servers, v.servers.len() as int);
}

/// Algorithm-change linearizability: once the operator override has put
/// an algorithm in force, a pick within the supervisor's cooldown window
/// chooses under that algorithm.
pub proof fn lemma_algorithm_override_takes_effect(
    v: LoadBalancerView,
    a: BalancingAlgorithm,
    now: int,
)
    requires
        v.wf(),
        now - v.last_check < MIN_MILLIS_BETWEEN_ALGO_CHANGES,
    ensures
        ({
            let v1 = LoadBalancerView { algorithm: a, ..v };
            &&& next_server_spec(v1, now).0.algorithm == a
            &&& next_server_spec(v1, now).1 == pick_index_spec(v1)
        }),
{
}

/// The supervisor's switch under an imbalanced burst: with more than one
/// backend, round-robin in force, a counter spread above three, and at
/// least five seconds elapsed, it puts least-connections in force and
/// stamps the time; counters, cursor and server order stay as they were.
pub proof fn lemma_supervisor_switches_on_imbalance(v: LoadBalancerView, now: int)
    requires
        v.wf(),
        v.servers.len() > 1,
        v.algorithm is RoundRobin,
        max_conn(v.servers) - min_conn(v.servers) > 3,
        now - v.last_check >= MIN_MILLIS_BETWEEN_ALGO_CHANGES,
    ensures
        supervise_spec(v, now).algorithm is LeastConnections,
        supervise_spec(v, now).last_check == now,
        supervise_spec(v, now).servers == v.servers,
        supervise_spec(v, now).cursor == v.cursor,
{
}

/// One event of a finite test against the pool: a pick at some time, or
/// a release by backend address.
pub ghost enum PoolEvent {
    Pick(int),
    Release(Seq<char>),
}

/// The pool after one event.
pub open spec fn apply_event(v: LoadBalancerView, e: PoolEvent) -> LoadBalancerView {
    match e {
        PoolEvent::Pick(now) => next_server_spec(v, now).0,
        PoolEvent::Release(addr) => release_spec(v, addr),
    }
}

/// The pool after a finite sequence of events.
pub open spec fn run_events(v: LoadBalancerView, es: Seq<PoolEvent>) -> LoadBalancerView
    decreases es.len(),
{
    if es.len() == 0 {
        v
    } else {
        run_events(apply_event(v, es[0]), es.drop_first())
    }
}

/// A trace is honoured when every pick happens at a nonnegative time and
/// every release names a backend that is present and loaded at that
/// moment — as the forwarder guarantees, releasing only what it picked.
pub open spec fn honoured(v: LoadBalancerView, es: Seq<PoolEvent>) -> bool
    decreases es.len(),
{
    if es.len() == 0 {
        true
    } else {
        let ok = match es[0] {
            PoolEvent::Pick(now) => now >= 0,
            PoolEvent::Release(addr) => {
                let f = find_index(v.servers, addr, 0);
                f matches Some(i) && v.servers[i].connections > 0
            },
        };
        ok && honoured(apply_event(v, es[0]), es.drop_first())
    }
}

pub open spec fn pick_count(es: Seq<PoolEvent>) -> int
    decreases es.len(),
{
    if es.len() == 0 {
        0
    } else {
        (if es[0] is Pick {
            1int
        } else {
            0int
        }) + pick_count(es.drop_first())
    }
}

pub open spec fn release_count(es: Seq<PoolEvent>) -> int
    decreases es.len(),
{
    if es.len() == 0 {
        0
    } else {
        (if es[0] is Release {
            1int
        } else {
            0int
        }) + release_count(es.drop_first())
    }
}

/// A pick at a nonnegative time keeps the pool well formed.
pub proof fn lemma_pick_preserves_wf(v: LoadBalancerView, now: int)
    requires
        v.wf(),
        now >= 0,
    ensures
        next_server_spec(v, now).0.wf(),
{
    broadcast use vstd::arithmetic::div_mod::lemma_mod_bound;

    let vs = supervise_spec(v, now);
    let (v1, i) = pick_spec(vs);
    if vs.algorithm is LeastConnections {
        lemma_least_index_upto(vs.servers, vs.servers.len() as int);
    }
    assert forall|j: int| 0 <= j < v1.servers.len() implies (
    #[trigger] v1.servers[j]).connections >= 0 by {
        if j != i {
            assert(v1.servers[j] == vs.servers[j]);
        }
    }
}

/// A release keeps the pool well formed.
pub proof fn lemma_release_preserves_wf(v: LoadBalancerView, addr: Seq<char>)
    requires
        v.wf(),
    ensures
        release_spec(v, addr).wf(),
{
    lemma_find_index_in_range(v.servers, addr, 0);
    let v1 = release_spec(v, addr);
    let f = find_index(v.servers, addr, 0);
    if f is Some {
        let i = f->0;
        assert forall|j: int| 0 <= j < v1.servers.len() implies (
        #[trigger] v1.servers[j]).connections >= 0 by {
            if j != i {
                assert(v1.servers[j] == v.servers[j]);
            }
        }
    }
}

/// A release that names a loaded backend lowers the total by one.
pub proof fn lemma_release_hit_lowers_total(v: LoadBalancerView, addr: Seq<char>)
    requires
        v.wf(),
        ({
            let f = find_index(v.servers, addr, 0);
            f matches Some(i) && v.servers[i].connections > 0
        }),
    ensures
        total_connections(release_spec(v, addr).servers) == total_connections(v.servers) - 1,
{
    lemma_find_index_in_range(v.servers, addr, 0);
    let i = find_index(v.servers, addr, 0)->0;
    let srv = v.servers[i];
    lemma_total_update(v.servers, i, ServerView { connections: srv.connections - 1, ..srv });
}

/// Counter balance over any finite test: after an honoured trace of
/// picks and releases, the counters sum to their starting total plus the
/// picks not yet released — the requests still in flight.
pub proof fn lemma_trace_counter_balance(v: LoadBalancerView, es: Seq<PoolEvent>)
    requires
        v.wf(),
        honoured(v, es),
    ensures
        run_events(v, es).wf(),
        total_connections(run_events(v, es).servers) == total_connections(v.servers) + pick_count(
            es,
        ) - release_count(es),
    decreases es.len(),
{
    if es.len() > 0 {
        let v1 = apply_event(v, es[0]);
        match es[0] {
            PoolEvent::Pick(now) => {
                lemma_pick_raises_total(v, now);
                lemma_pick_preserves_wf(v, now);
            },
            PoolEvent::Release(addr) => {
                lemma_release_hit_lowers_total(v, addr);
                lemma_release_preserves_wf(v, addr);
            },
        }
        lemma_trace_counter_balance(v1, es.drop_first());
    }
}

/// After quiescence — as many honoured releases as picks — the counters
/// sum to what they began at; from an idle pool, to zero.
pub proof fn lemma_trace_quiescence(v: LoadBalancerView, es: Seq<PoolEvent>)
    requires
        v.wf(),
        honoured(v, es),
        pick_count(es) == release_count(es),
    ensures
        total_connections(run_events(v, es).servers) == total_connections(v.servers),
{
    lemma_trace_counter_balance(v, es);
}

/// The pool state after a sequence of picks, one per entry of `nows`.
pub open spec fn run_picks(v: LoadBalancerView, nows: Seq<int>) -> LoadBalancerView
    decreases nows.len(),
{
    if nows.len() == 0 {
        v
    } else {
        run_picks(next_server_spec(v, nows[0]).0, nows.drop_first())
    }
}

/// The indices a sequence of picks returns, one per entry of `nows`.
pub open spec fn picks_of(v: LoadBalancerView, nows: Seq<int>) -> Seq<int>
    decreases nows.len(),
{
    if nows.len() == 0 {
        Seq::empty()
    } else {
        seq![next_server_spec(v, nows[0]).1] + picks_of(
            next_server_spec(v, nows[0]).0,
            nows.drop_first(),
        )
    }
}

proof fn lemma_rr_picks_follow_cursor(v: LoadBalancerView, nows: Seq<int>)
    requires
        v.wf(),
        v.algorithm is RoundRobin,
        forall|t: int| 0 <= t < nows.len() ==> #[trigger] nows[t] - v.last_check
            < MIN_MILLIS_BETWEEN_ALGO_CHANGES,
    ensures
        picks_of(v, nows).len() == nows.len(),
        forall|t: int|
            0 <= t < nows.len() ==> #[trigger] picks_of(v, nows)[t] == (v.cursor + t) % (
            v.servers.len() as int),
    decreases nows.len(),
{
    broadcast use vstd::arithmetic::div_mod::lemma_mod_bound;
    broadcast use vstd::arithmetic::div_mod::lemma_add_mod_noop_right;

    let n = v.servers.len() as int;
    if nows.len() > 0 {
        let (v1, i0) = next_server_spec(v, nows[0]);
        assert(supervise_spec(v, nows[0]) == v);
        assert(i0 == v.cursor);
        assert(v1.cursor == (v.cursor + 1) % n);
        assert(v1.wf());
        assert(v1.algorithm is RoundRobin);
        assert(v1.last_check == v.last_check);
        let rest = nows.drop_first();
        assert(forall|t: int|
            0 <= t < rest.len() ==> #[trigger] rest[t] - v1.last_check
                < MIN_MILLIS_BETWEEN_ALGO_CHANGES);
        lemma_rr_picks_follow_cursor(v1, rest);
        vstd::arithmetic::div_mod::lemma_small_mod(v.cursor as nat, n as nat);
        assert forall|t: int| 0 <= t < nows.len() implies #[trigger] picks_of(v, nows)[t] == (
        v.cursor + t) % n by {
            if t == 0 {
                assert(picks_of(v, nows)[0] == i0);
            } else {
                assert(picks_of(v, nows)[t] == picks_of(v1, rest)[t - 1]);
                assert(picks_of(v1, rest)[t - 1] == (v1.cursor + (t - 1)) % n);
                vstd::arithmetic::div_mod::lemma_add_mod_noop_right(t - 1, v.cursor + 1, n);
                assert(((v.cursor + 1) % n + (t - 1)) % n == (v.cursor + t) % n);
            }
        }
    }
}

/// Round-robin fairness: with round-robin in force and every pick within
/// the supervisor's cooldown window, as many consecutive picks as there
/// are backends return each backend exactly once, in pool order starting
/// from the cursor.
pub proof fn lemma_round_robin_fairness(v: LoadBalancerView, nows: Seq<int>)
    requires
        v.wf(),
        v.algorithm is RoundRobin,
        nows.len() == v.servers.len(),
        forall|t: int| 0 <= t < nows.len() ==> #[trigger] nows[t] - v.last_check
            < MIN_MILLIS_BETWEEN_ALGO_CHANGES,
    ensures
        picks_of(v, nows).len() == v.servers.len(),
        forall|t: int|
            0 <= t < nows.len() ==> #[trigger] picks_of(v, nows)[t] == (v.cursor + t) % (
            v.servers.len() as int),
        forall|t: int| 0 <= t < nows.len() ==> 0 <= #[trigger] picks_of(v, nows)[t]
            < v.servers.len(),
        forall|a: int, b: int|
            0 <= a < b < nows.len() ==> #[trigger] picks_of(v, nows)[a] != #[trigger] picks_of(
                v,
                nows,
            )[b],
{
    broadcast use vstd::arithmetic::div_mod::lemma_mod_bound;

    let n = v.servers.len() as int;
    lemma_rr_picks_follow_cursor(v, nows);
    assert forall|a: int, b: int| 0 <= a < b < nows.len() implies #[trigger] picks_of(v, nows)[a]
        != #[trigger] picks_of(v, nows)[b] by {
        if (v.cursor + a) % n == (v.cursor + b) % n {
            vstd::arithmetic::div_mod::lemma_mod_equivalence(v.cursor + b, v.cursor + a, n);
            vstd::arithmetic::div_mod::lemma_small_mod((b - a) as nat, n as nat);
            assert(false);
        }
    }
}

/// Relies on chrono's `Utc::now` for the wall-clock time, read as whole
/// milliseconds since the epoch; what it returns depends on the clock, so
/// nothing is promised of it.
#[verifier::external_body]
fn now_millis() -> u64 {
    let ms: i64 = chrono::Utc::now().timestamp_millis();
    u64::try_from(ms).unwrap_or(0)
}

} // verus!

//! The dispatcher's HTTP-facing decisions: request routing, the
//! algorithm-change handler, and target URI composition.

use crate::addr::{valid_octet, valid_port_str, valid_socket_addr};
use crate::balancing_algorithm::{algo_of_name, BalancingAlgorithm};
use crate::json::{json_str_field, json_string_field};
use crate::load_balancer::LoadBalancer;
use crate::server::Server;
use crate::text::{
    all_digits, dec_value, digit_val, is_digit, lemma_digit_run_end_is, opt_str_view, str_eq,
};
use vstd::prelude::*;
use vstd::string::*;

verus! {

/// Where the dispatcher sends a request: the algorithm-change handler
/// for `POST /algo`, the forwarder for everything else.
#[derive(Clone, Copy, Debug, PartialEq, Eq, Structural)]
pub enum DispatchRoute {
    ChangeAlgo,
    Forward,
}

/// Routes one request by method and path.
pub fn route_request(method: &str, path: &str) -> (r: DispatchRoute)
    ensures
        r == DispatchRoute::ChangeAlgo <==> (method@ == "POST"@ && path@ == "/algo"@),
{
    if str_eq(method, "POST") && str_eq(path, "/algo") {
        DispatchRoute::ChangeAlgo
    } else {
        DispatchRoute::Forward
    }
}

/// What the algorithm-change handler answers — status and plaintext
/// message — and the algorithm it puts in force, given the `algo` field
/// of the request body.
pub open spec fn algo_decision_spec(field: Option<Seq<char>>) -> (int, Seq<char>, Option<
    BalancingAlgorithm,
>) {
    match field {
        None => (400, "Missing or invalid 'algo' key"@, None),
        Some(name) => match algo_of_name(name) {
            Some(a) => (
                200,
                "Algorithm changed successfully to "@ + a.name_spec(),
                Some(a),
            ),
            None => (400, "Invalid algorithm value '"@ + name + "'"@, None),
        },
    }
}

/// The algorithm-change handler's answer.
#[derive(Debug)]
pub struct AlgoDecision {
    pub status: u16,
    pub message: String,
    pub algorithm: Option<BalancingAlgorithm>,
}

/// Decides an algorithm-change request from its `algo` field alone.
pub fn change_algo_decision(field: Option<&str>) -> (r: AlgoDecision)
    ensures
        r.status as int == algo_decision_spec(opt_str_view(field)).0,
        r.message@ == algo_decision_spec(opt_str_view(field)).1,
        r.algorithm == algo_decision_spec(opt_str_view(field)).2,
{
    match field {
        None => AlgoDecision {
            status: 400,
            message: String::from_str("Missing or invalid 'algo' key"),
            algorithm: None,
        },
        Some(name) => match BalancingAlgorithm::try_from(name) {
            Ok(a) => {
                let mut m = String::from_str("Algorithm changed successfully to ");
                m.append(a.name());
                AlgoDecision { status: 200, message: m, algorithm: Some(a) }
            },
            Err(_) => {
                let mut m = String::from_str("Invalid algorithm value '");
                m.append(name);
                m.append("'");
                AlgoDecision { status: 400, message: m, algorithm: None }
            },
        },
    }
}

/// Handles a `POST /algo` body against the pool: a recognized algorithm
/// name answers 200 and is put in force at once; anything else answers
/// 400 and leaves the pool exactly as it was.
pub fn apply_algo_request(lb: &mut LoadBalancer, body: &str) -> (r: (u16, String))
    ensures
        ({
            let d = algo_decision_spec(json_str_field(body@, "algo"@));
            &&& r.0 as int == d.0
            &&& r.1@ == d.1
            &&& match d.2 {
                Some(a) => {
                    &&& final(lb)@.algorithm == a
                    &&& final(lb)@.servers == old(lb)@.servers
                    &&& final(lb)@.cursor == old(lb)@.cursor
                    &&& final(lb)@.last_check == old(lb)@.last_check
                },
                None => final(lb)@ == old(lb)@,
            }
        }),
{
    let field = json_string_field(body, "algo");
    let d = match &field {
        Some(s) => change_algo_decision(Some(s.as_str())),
        None => change_algo_decision(None),
    };
    match d.algorithm {
        Some(a) => {
            lb.set_algorithm(a);
        },
        None => {},
    }
    (d.status, d.message)
}

/// The URI the forwarder sends to: `http://<address><path-and-query>`,
/// where an absent path and query stands as `/`.
pub open spec fn target_uri_spec(addr: Seq<char>, path_and_query: Option<Seq<char>>) -> Seq<
    char,
> {
    "http://"@ + addr + (match path_and_query {
        Some(p) => p,
        None => "/"@,
    })
}

/// Composes the worker-side URI for one forwarded request.
pub fn compose_target_uri(addr: &str, path_and_query: Option<&str>) -> (r: String)
    ensures
        r@ == target_uri_spec(addr@, opt_str_view(path_and_query)),
{
    let mut s = String::from_str("http://");
    s.append(addr);
    match path_and_query {
        Some(p) => s.append(p),
        None => s.append("/"),
    }
    s
}

/// An address of the fixed fleet's shape — `127.0.0.1:300d` for a digit
/// `d` — is a well-formed socket address.
proof fn lemma_fleet_addr_valid(a: Seq<char>)
    requires
        a.len() == 14,
        a[0] == '1',
        a[1] == '2',
        a[2] == '7',
        a[3] == '.',
        a[4] == '0',
        a[5] == '.',
        a[6] == '0',
        a[7] == '.',
        a[8] == '1',
        a[9] == ':',
        a[10] == '3',
        a[11] == '0',
        a[12] == '0',
        is_digit(a[13]),
    ensures
        valid_socket_addr(a),
{
    lemma_digit_run_end_is(a, 0, 3);
    lemma_digit_run_end_is(a, 4, 5);
    lemma_digit_run_end_is(a, 6, 7);
    lemma_digit_run_end_is(a, 8, 9);
    lemma_digit_run_end_is(a, 10, 14);
    let o1 = a.subrange(0, 3);
    let o2 = a.subrange(4, 5);
    let o3 = a.subrange(6, 7);
    let o4 = a.subrange(8, 9);
    let pt = a.subrange(10, 14);
    assert(o1 =~= seq!['1', '2', '7']);
    assert(o2 =~= seq!['0']);
    assert(o3 =~= seq!['0']);
    assert(o4 =~= seq!['1']);
    assert(pt =~= seq!['3', '0', '0', a[13]]);
    assert(all_digits(o1)) by {
        assert forall|k: int| 0 <= k < o1.len() implies is_digit(#[trigger] o1[k]) by {
            assert(o1[k] == a[k]);
        }
    }
    assert(all_digits(o2)) by {
        assert(o2[0] == a[4]);
    }
    assert(all_digits(o3)) by {
        assert(o3[0] == a[6]);
    }
    assert(all_digits(o4)) by {
        assert(o4[0] == a[8]);
    }
    assert(all_digits(pt)) by {
        assert forall|k: int| 0 <= k < pt.len() implies is_digit(#[trigger] pt[k]) by {
            assert(pt[k] == a[10 + k]);
        }
    }
    assert(dec_value(Seq::<char>::empty()) == 0);
    assert(seq!['1', '2', '7'].drop_last() =~= seq!['1', '2']);
    assert(seq!['1', '2'].drop_last() =~= seq!['1']);
    assert(seq!['1'].drop_last() =~= Seq::<char>::empty());
    assert(dec_value(seq!['1']) == 1);
    assert(dec_value(seq!['1', '2']) == 12);
    assert(dec_value(o1) == 127);
    assert(seq!['0'].drop_last() =~= Seq::<char>::empty());
    assert(dec_value(o2) == 0);
    assert(dec_value(o3) == 0);
    assert(dec_value(o4) == 1);
    assert(pt.drop_last() =~= seq!['3', '0', '0']);
    assert(seq!['3', '0', '0'].drop_last() =~= seq!['3', '0']);
    assert(seq!['3', '0'].drop_last() =~= seq!['3']);
    assert(seq!['3'].drop_last() =~= Seq::<char>::empty());
    assert(dec_value(seq!['3']) == 3);
    assert(dec_value(seq!['3', '0']) == 30);
    assert(dec_value(seq!['3', '0', '0']) == 300);
    assert(dec_value(pt) == 3000 + digit_val(a[13]));
    assert(valid_octet(o1));
    assert(valid_octet(o2));
    assert(valid_octet(o3));
    assert(valid_octet(o4));
    assert(valid_port_str(pt));
}

/// Builds the pool over the fixed backend fleet: three workers on
/// loopback ports 3000 to 3002. Every address of the fleet is well
/// formed, so construction always succeeds.
pub fn create_load_balancer() -> (r: Result<LoadBalancer, String>)
    ensures
        r is Ok,
        r matches Ok(lb) ==> {
            &&& lb@.wf()
            &&& lb@.servers.len() == 3
            &&& lb@.servers[0].address == "127.0.0.1:3000"@
            &&& lb@.servers[1].address == "127.0.0.1:3001"@
            &&& lb@.servers[2].address == "127.0.0.1:3002"@
            &&& forall|i: int| 0 <= i < 3 ==> (#[trigger] lb@.servers[i]).connections == 0
            &&& lb@.algorithm == BalancingAlgorithm::RoundRobin
            &&& lb@.cursor == 0
        },
{
    proof {
        reveal_strlit("127.0.0.1:3000");
        reveal_strlit("127.0.0.1:3001");
        reveal_strlit("127.0.0.1:3002");
        assert("127.0.0.1:3000"@.len() == 14);
        assert("127.0.0.1:3001"@.len() == 14);
        assert("127.0.0.1:3002"@.len() == 14);
        lemma_fleet_addr_valid("127.0.0.1:3000"@);
        lemma_fleet_addr_valid("127.0.0.1:3001"@);
        lemma_fleet_addr_valid("127.0.0.1:3002"@);
    }
    let s0 = match Server::new(String::from_str("127.0.0.1:3000")) {
        Ok(s) => s,
        Err(e) => {
            return Err(e);
        },
    };
    let s1 = match Server::new(String::from_str("127.0.0.1:3001")) {
        Ok(s) => s,
        Err(e) => {
            return Err(e);
        },
    };
    let s2 = match Server::new(String::from_str("127.0.0.1:3002")) {
        Ok(s) => s,
        Err(e) => {
            return Err(e);
        },
    };
    let mut servers: Vec<Server> = Vec::new();
    servers.push(s0);
    servers.push(s1);
    servers.push(s2);
    LoadBalancer::new(servers)
}

} // verus!

//! The tunable worker service's decisions: routing, retuning through
//! `/setup`, and the simulated work of `/work`.
//!
//! The error probability is held in millionths, a fixed-point stand-in
//! for the real-valued rate on the wire; one million stands for certainty.

use crate::json::{json_str_field, json_string_field};
use crate::text::{
    opt_str_view, parse_rate, parse_rate_spec, parse_u64, parse_u64_spec, rate_dec_str,
    rate_to_string, str_eq, u64_dec_str, u64_to_string,
};
use vstd::prelude::*;
use vstd::string::*;

verus! {

pub const DEFAULT_MIN_DURATION: u64 = 10;

pub const DEFAULT_MAX_DURATION: u64 = 10;

/// Certainty, as an error rate in millionths.
pub const RATE_ONE_PPM: u32 = 1000000;

/// The worker's tunables: the bounds of its simulated latency in
/// milliseconds, and its error probability in millionths.
#[derive(Clone, Copy, Debug, PartialEq, Eq, Structural)]
pub struct Tunables {
    pub min_duration: u64,
    pub max_duration: u64,
    pub error_rate_ppm: u32,
}

pub open spec fn default_tunables() -> Tunables {
    Tunables {
        min_duration: DEFAULT_MIN_DURATION,
        max_duration: DEFAULT_MAX_DURATION,
        error_rate_ppm: 0,
    }
}

impl Tunables {
    /// The latency bounds are ordered and the rate is a probability.
    pub open spec fn wf(self) -> bool {
        self.min_duration <= self.max_duration && self.error_rate_ppm <= RATE_ONE_PPM
    }
}

impl Default for Tunables {
    /// The tunables the worker starts with.
    fn default() -> (r: Tunables)
        ensures
            r == default_tunables(),
            r.wf(),
    {
        Tunables {
            min_duration: DEFAULT_MIN_DURATION,
            max_duration: DEFAULT_MAX_DURATION,
            error_rate_ppm: 0,
        }
    }
}

/// The worker's routes.
#[derive(Clone, Copy, Debug, PartialEq, Eq, Structural)]
pub enum WorkerRoute {
    Health,
    Setup,
    Work,
    NotFound,
}

/// Routes one request by method and path; anything unrecognized is
/// answered with 404.
pub fn route_worker(method: &str, path: &str) -> (r: WorkerRoute)
    ensures
        (r == WorkerRoute::Health) <==> (method@ == "GET"@ && path@ == "/health"@),
        (r == WorkerRoute::Setup) <==> (method@ == "POST"@ && path@ == "/setup"@),
        (r == WorkerRoute::Work) <==> (method@ == "POST"@ && path@ == "/work"@),
{
    proof {
        reveal_strlit("GET");
        reveal_strlit("POST");
        reveal_strlit("/health");
        reveal_strlit("/setup");
        reveal_strlit("/work");
        assert("GET"@.len() == 3);
        assert("POST"@.len() == 4);
        assert("/health"@.len() == 7);
        assert("/setup"@.len() == 6);
        assert("/work"@.len() == 5);
    }
    if str_eq(method, "GET") && str_eq(path, "/health") {
        WorkerRoute::Health
    } else if str_eq(method, "POST") && str_eq(path, "/setup") {
        WorkerRoute::Setup
    } else if str_eq(method, "POST") && str_eq(path, "/work") {
        WorkerRoute::Work
    } else {
        WorkerRoute::NotFound
    }
}

/// The `/health` answer body.
pub fn health_body() -> (r: &'static str)
    ensures
        r@ == "OK"@,
{
    "OK"
}

/// The `/work` answer body.
pub fn work_done_body() -> (r: &'static str)
    ensures
        r@ == "Work done"@,
{
    "Work done"
}

/// The answer body of an unrecognized route.
pub fn not_found_body() -> (r: &'static str)
    ensures
        r@ == "Not Found"@,
{
    "Not Found"
}

/// The minimum duration a `/setup` body yields: the parsed field, or the
/// default when the field is absent or unparsable.
pub open spec fn setup_min_spec(field: Option<Seq<char>>) -> u64 {
    match field {
        None => DEFAULT_MIN_DURATION,
        Some(s) => match parse_u64_spec(s) {
            Some(v) => v,
            None => DEFAULT_MIN_DURATION,
        },
    }
}

/// The maximum duration a `/setup` body yields: the parsed field — the
/// minimum standing in when the field is absent or unparsable — raised
/// to the default floor and to the minimum itself.
pub open spec fn setup_max_spec(minv: u64, field: Option<Seq<char>>) -> u64 {
    let raw = match field {
        None => minv,
        Some(s) => match parse_u64_spec(s) {
            Some(v) => v,
            None => minv,
        },
    };
    let floored = if raw >= DEFAULT_MAX_DURATION {
        raw
    } else {
        DEFAULT_MAX_DURATION
    };
    if floored >= minv {
        floored
    } else {
        minv
    }
}

/// The error rate a `/setup` body yields, in millionths: the parsed and
/// clamped field, or zero when absent or unparsable.
pub open spec fn setup_rate_spec(field: Option<Seq<char>>) -> int {
    match field {
        None => 0,
        Some(s) => match parse_rate_spec(s) {
            Some(v) => v,
            None => 0,
        },
    }
}

/// The tunables a `/setup` body puts in force.
pub open spec fn setup_spec(
    minf: Option<Seq<char>>,
    maxf: Option<Seq<char>>,
    errf: Option<Seq<char>>,
) -> Tunables {
    let minv = setup_min_spec(minf);
    Tunables {
        min_duration: minv,
        max_duration: setup_max_spec(minv, maxf),
        error_rate_ppm: setup_rate_spec(errf) as u32,
    }
}

/// The `/setup` acknowledgement line, echoing the effective values.
pub open spec fn setup_message_spec(t: Tunables) -> Seq<char> {
    "Setup done with min_duration: "@ + u64_dec_str(t.min_duration as int) + ", max_duration: "@
        + u64_dec_str(t.max_duration as int) + ", error_rate: "@ + rate_dec_str(
        t.error_rate_ppm as int,
    )
}

/// Decides a `/setup` request from its three fields alone.
pub fn setup_from_fields(
    min_field: Option<&str>,
    max_field: Option<&str>,
    err_field: Option<&str>,
) -> (r: (Tunables, String))
    ensures
        r.0 == setup_spec(
            opt_str_view(min_field),
            opt_str_view(max_field),
            opt_str_view(err_field),
        ),
        r.0.wf(),
        r.1@ == setup_message_spec(r.0),
{
    let minv: u64 = match min_field {
        None => DEFAULT_MIN_DURATION,
        Some(s) => match parse_u64(s) {
            Some(v) => v,
            None => DEFAULT_MIN_DURATION,
        },
    };
    let raw: u64 = match max_field {
        None => minv,
        Some(s) => match parse_u64(s) {
            Some(v) => v,
            None => minv,
        },
    };
    let mut maxv: u64 = if raw >= DEFAULT_MAX_DURATION {
        raw
    } else {
        DEFAULT_MAX_DURATION
    };
    if maxv < minv {
        maxv = minv;
    }
    let rate: u32 = match err_field {
        None => 0,
        Some(s) => match parse_rate(s) {
            Some(v) => v,
            None => 0,
        },
    };
    let t = Tunables { min_duration: minv, max_duration: maxv, error_rate_ppm: rate };
    let mut m = String::from_str("Setup done with min_duration: ");
    m.append(u64_to_string(minv).as_str());
    m.append(", max_duration: ");
    m.append(u64_to_string(maxv).as_str());
    m.append(", error_rate: ");
    m.append(rate_to_string(rate).as_str());
    (t, m)
}

/// Serves one `/setup` body: the tunables it puts in force, to be
/// swapped in atomically by the caller, and the acknowledgement line.
pub fn setup_tunables(body: &str) -> (r: (Tunables, String))
    ensures
        r.0 == setup_spec(
            json_str_field(body@, "min_duration"@),
            json_str_field(body@, "max_duration"@),
            json_str_field(body@, "error_rate"@),
        ),
        r.0.wf(),
        r.1@ == setup_message_spec(r.0),
{
    let minf = json_string_field(body, "min_duration");
    let maxf = json_string_field(body, "max_duration");
    let errf = json_string_field(body, "error_rate");
    setup_from_fields(
        match &minf {
            Some(s) => Some(s.as_str()),
            None => None,
        },
        match &maxf {
            Some(s) => Some(s.as_str()),
            None => None,
        },
        match &errf {
            Some(s) => Some(s.as_str()),
            None => None,
        },
    )
}

/// The multiplier a `/work` body yields: the parsed field defaulted to
/// one, clamped to `[1, 10]`.
pub open spec fn multiplier_spec(field: Option<Seq<char>>) -> u64 {
    match field {
        None => 1,
        Some(s) => match parse_u64_spec(s) {
            None => 1,
            Some(v) => if v < 1 {
                1
            } else if v > 10 {
                10
            } else {
                v
            },
        },
    }
}

/// Reads the work multiplier from the `multiplier` field.
pub fn multiplier_from_field(field: Option<&str>) -> (r: u64)
    ensures
        r == multiplier_spec(opt_str_view(field)),
        1 <= r <= 10,
{
    match field {
        None => 1,
        Some(s) => match parse_u64(s) {
            None => 1,
            Some(v) => {
                if v < 1 {
                    1
                } else if v > 10 {
                    10
                } else {
                    v
                }
            },
        },
    }
}

/// The outcome of one `/work` request given the random draws: how long
/// to sleep, and which status to answer. The draw of `err_draw` below
/// the rate is the Bernoulli trial with the tuned probability.
pub fn work_outcome(mult: u64, base: u64, err_draw: u32, t: Tunables) -> (r: (u64, u16))
    requires
        t.wf(),
        1 <= mult <= 10,
        t.min_duration <= base <= t.max_duration,
        t.max_duration <= u64::MAX / 10,
        err_draw < RATE_ONE_PPM,
    ensures
        r.0 == mult * base,
        mult * t.min_duration <= r.0 <= mult * t.max_duration,
        r.1 == 500 <==> err_draw < t.error_rate_ppm,
        r.1 == 500 || r.1 == 200,
{
    proof {
        assert(mult * t.min_duration <= mult * base <= mult * t.max_duration) by (nonlinear_arith)
            requires
                1 <= mult <= 10,
                t.min_duration <= base <= t.max_duration,
        ;
        assert(mult * base <= 10 * t.max_duration) by (nonlinear_arith)
            requires
                1 <= mult <= 10,
                0 <= base <= t.max_duration,
        ;
    }
    let sleep: u64 = mult * base;
    let status: u16 = if err_draw < t.error_rate_ppm {
        500
    } else {
        200
    };
    (sleep, status)
}

/// Serves one `/work` body under the given tunables: parses the
/// multiplier, draws the base delay uniformly from the tuned interval
/// and the failure with the tuned probability, and answers how long to
/// sleep and which status to return.
pub fn work_request(body: &str, t: &Tunables) -> (r: (u64, u16))
    requires
        t.wf(),
        t.max_duration <= u64::MAX / 10,
    ensures
        ({
            let m = multiplier_spec(json_str_field(body@, "multiplier"@));
            &&& m * t.min_duration <= r.0 <= m * t.max_duration
            &&& (r.1 == 500 || r.1 == 200)
            &&& (t.error_rate_ppm == 0 ==> r.1 == 200)
            &&& (t.error_rate_ppm == RATE_ONE_PPM ==> r.1 == 500)
        }),
{
    let field = json_string_field(body, "multiplier");
    let mult: u64 = multiplier_from_field(
        match &field {
            Some(s) => Some(s.as_str()),
            None => None,
        },
    );
    let base: u64 = rand_in_range(t.min_duration, t.max_duration);
    let draw64: u64 = rand_in_range(0, (RATE_ONE_PPM - 1) as u64);
    let outcome = work_outcome(mult, base, draw64 as u32, *t);
    outcome
}

/// Relies on rand's `random_range`: a draw from the uniform distribution
/// over the given inclusive bounds. Nothing more is promised: the value
/// depends on the generator's state.
#[verifier::external_body]
fn rand_in_range(lo: u64, hi: u64) -> (r: u64)
    requires
        lo <= hi,
    ensures
        lo <= r <= hi,
{
    rand::random_range(lo..=hi)
}

} // verus!

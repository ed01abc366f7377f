//! The pluggable dispatch strategies and their wire names.

use crate::text::str_eq;
use vstd::prelude::*;

verus! {

/// The two request-dispatch strategies of the balancer.
#[derive(Clone, Copy, Debug, PartialEq, Eq, Structural)]
pub enum BalancingAlgorithm {
    RoundRobin,
    LeastConnections,
}

/// The failure of reading a string that names no algorithm.
#[derive(Clone, Copy, Debug, PartialEq, Eq, Structural)]
pub struct ConversionError;

impl ConversionError {
    /// The diagnostic line for an unrecognized algorithm name.
    pub fn message(&self) -> (r: &'static str)
        ensures
            r@ == "Invalid balancing algorithm"@,
    {
        "Invalid balancing algorithm"
    }
}

/// Which algorithm, if any, a wire name denotes.
pub open spec fn algo_of_name(s: Seq<char>) -> Option<BalancingAlgorithm> {
    if s == "round_robin"@ {
        Some(BalancingAlgorithm::RoundRobin)
    } else if s == "least_connections"@ {
        Some(BalancingAlgorithm::LeastConnections)
    } else {
        None
    }
}

impl BalancingAlgorithm {
    /// The wire name of the algorithm.
    pub open spec fn name_spec(self) -> Seq<char> {
        match self {
            BalancingAlgorithm::RoundRobin => "round_robin"@,
            BalancingAlgorithm::LeastConnections => "least_connections"@,
        }
    }

    /// Reads an algorithm from its wire name.
    pub fn try_from(value: &str) -> (r: Result<BalancingAlgorithm, ConversionError>)
        ensures
            r is Ok <==> algo_of_name(value@) is Some,
            r matches Ok(a) ==> algo_of_name(value@) == Some(a),
    {
        if str_eq(value, "round_robin") {
            Ok(BalancingAlgorithm::RoundRobin)
        } else if str_eq(value, "least_connections") {
            Ok(BalancingAlgorithm::LeastConnections)
        } else {
            Err(ConversionError)
        }
    }

    /// The wire name of the algorithm, as shown in acknowledgements.
    pub fn name(&self) -> (r: &'static str)
        ensures
            r@ == self.name_spec(),
    {
        match self {
            BalancingAlgorithm::RoundRobin => "round_robin",
            BalancingAlgorithm::LeastConnections => "least_connections",
        }
    }
}

} // verus!

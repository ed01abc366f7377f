//! One tracked backend: its address and its live in-flight counter.

use crate::addr::{check_socket_addr, valid_socket_addr};
use vstd::prelude::*;
use vstd::string::*;

verus! {

/// The abstract state of a backend: its address and in-flight count.
pub ghost struct ServerView {
    pub address: Seq<char>,
    pub connections: int,
}

/// A backend worker as the dispatcher tracks it.
#[derive(Debug)]
pub struct Server {
    address: String,
    connections: usize,
}

impl View for Server {
    type V = ServerView;

    closed spec fn view(&self) -> ServerView {
        ServerView { address: self.address@, connections: self.connections as int }
    }
}

impl Server {
    /// A backend is well formed when its address is a valid socket address.
    pub open spec fn wf(self) -> bool {
        valid_socket_addr(self@.address) && self@.connections >= 0
    }

    /// Creates a backend with a zero counter; rejects an empty or
    /// ill-formed address.
    pub fn new(address: String) -> (r: Result<Server, String>)
        ensures
            r is Ok <==> address@.len() > 0 && valid_socket_addr(address@),
            r matches Ok(s) ==> s@.address == address@ && s@.connections == 0 && s.wf(),
            address@.len() == 0 ==> (r matches Err(m) && m@ == "Address cannot be empty"@),
            address@.len() > 0 && !valid_socket_addr(address@) ==> (r matches Err(m) && m@
                == "Invalid address: "@ + address@),
    {
        if address.as_str().unicode_len() == 0 {
            return Err(String::from_str("Address cannot be empty"));
        }
        if check_socket_addr(address.as_str()) {
            Ok(Server { address, connections: 0 })
        } else {
            let mut m = String::from_str("Invalid address: ");
            m.append(address.as_str());
            Err(m)
        }
    }

    /// The backend's address.
    pub fn get_address(&self) -> (r: &str)
        ensures
            r@ == self@.address,
    {
        self.address.as_str()
    }

    /// The backend's live in-flight count.
    pub fn get_connections(&self) -> (r: usize)
        ensures
            r as int == self@.connections,
    {
        self.connections
    }

    /// Notes one more in-flight request on this backend.
    pub fn increment_connections(&mut self)
        requires
            old(self)@.connections < usize::MAX,
        ensures
            final(self)@.address == old(self)@.address,
            final(self)@.connections == old(self)@.connections + 1,
    {
        self.connections = self.connections + 1;
    }

    /// Notes the end of one in-flight request; at zero this is a no-op.
    pub fn decrement_connections(&mut self)
        ensures
            final(self)@.address == old(self)@.address,
            final(self)@.connections == if old(self)@.connections > 0 {
                old(self)@.connections - 1
            } else {
                0
            },
    {
        if self.connections > 0 {
            self.connections = self.connections - 1;
        }
    }
}

/// A backend's in-flight counter is never negative.
pub proof fn lemma_server_connections_nonneg(s: &Server)
    ensures
        s@.connections >= 0,
{
}

} // verus!

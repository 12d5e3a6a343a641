//! One record of the access log, and the two things the aggregator reads from
//! it: who made the request and for which path.

use vstd::prelude::*;
use vstd::string::StringExecFns;
use crate::text::{before_last, prefix_before_last};

verus! {

/// One decoded record of the access log. Every field is optional.
#[derive(Debug)]
pub struct TraefikLogEntry {
    /// The client's address, which may end in `:port`.
    pub client_addr: Option<String>,
    /// The client's host.
    pub client_host: Option<String>,
    /// The path that was requested.
    pub request_path: Option<String>,
    /// The HTTP method of the request.
    pub request_method: Option<String>,
    /// The protocol of the request.
    pub request_protocol: Option<String>,
    /// The status that the origin server answered with.
    pub origin_status: Option<u16>,
    /// The status that was sent to the client.
    pub downstream_status: Option<u16>,
}

/// What a record says, as plain mathematical values.
pub struct LogEntryView {
    pub client_addr: Option<Seq<char>>,
    pub client_host: Option<Seq<char>>,
    pub request_path: Option<Seq<char>>,
    pub request_method: Option<Seq<char>>,
    pub request_protocol: Option<Seq<char>>,
    pub origin_status: Option<u16>,
    pub downstream_status: Option<u16>,
}

/// The characters of an optional string.
pub open spec fn text_of(s: Option<String>) -> Option<Seq<char>> {
    match s {
        Some(t) => Some(t@),
        None => None,
    }
}

/// An address without its port: what stands before its last colon, or all of
/// it where it has no colon.
pub open spec fn without_port(addr: Seq<char>) -> Seq<char> {
    match before_last(addr, ':') {
        Some(host) => host,
        None => addr,
    }
}

impl LogEntryView {
    /// The client's identifier: the host where one is given and not empty,
    /// else the address without its port, else none.
    pub open spec fn ip(self) -> Option<Seq<char>> {
        match (self.client_host, self.client_addr) {
            (Some(host), _) if host.len() > 0 => Some(host),
            (_, Some(addr)) => Some(without_port(addr)),
            (_, None) => None,
        }
    }

    /// The requested path, `/` where none is given.
    pub open spec fn path(self) -> Seq<char> {
        match self.request_path {
            Some(path) => path,
            None => seq!['/'],
        }
    }
}

impl View for TraefikLogEntry {
    type V = LogEntryView;

    open spec fn view(&self) -> LogEntryView {
        LogEntryView {
            client_addr: text_of(self.client_addr),
            client_host: text_of(self.client_host),
            request_path: text_of(self.request_path),
            request_method: text_of(self.request_method),
            request_protocol: text_of(self.request_protocol),
            origin_status: self.origin_status,
            downstream_status: self.downstream_status,
        }
    }
}

impl TraefikLogEntry {
    /// The client's identifier, if the record has one.
    pub fn get_ip(&self) -> (r: Option<String>)
        ensures
            text_of(r) == self@.ip(),
    {
        if let Some(host) = &self.client_host {
            if !host.as_str().is_empty() {
                return Some(host.clone());
            }
        }
        match &self.client_addr {
            Some(addr) => {
                match prefix_before_last(addr.as_str(), ':') {
                    Some(host) => Some(host.to_owned()),
                    None => Some(addr.clone()),
                }
            },
            None => None,
        }
    }

    /// The requested path, `/` where the record has none.
    pub fn get_path(&self) -> (r: String)
        ensures
            r@ == self@.path(),
    {
        match &self.request_path {
            Some(path) => path.clone(),
            None => {
                proof {
                    reveal_strlit("/");
                    assert("/"@ =~= seq!['/']);
                }
                String::from_str("/")
            },
        }
    }
}

} // verus!

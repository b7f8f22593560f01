//! Where heartbeats and pushes go: the exact request paths, appended to a
//! peer's base address.

use vstd::prelude::*;
use vstd::string::StringExecFns;

use crate::numbers::{u32_digits, u32_digits_vec};
use crate::text::push_chars;

verus! {

pub open spec fn lit_hello_from() -> Seq<char> {
    seq!['/', 'h', 'e', 'l', 'l', 'o', '_', 'f', 'r', 'o', 'm', '/']
}

pub open spec fn lit_health() -> Seq<char> {
    seq!['/', 'h', 'e', 'a', 'l', 't', 'h']
}

pub open spec fn lit_health_logged() -> Seq<char> {
    seq!['/', 'h', 'e', 'a', 'l', 't', 'h', '_', 'l', 'o', 'g', 'g', 'e', 'd']
}

pub open spec fn lit_nodes() -> Seq<char> {
    seq!['/', 'n', 'o', 'd', 'e', 's']
}

/// What a node's watcher calls on its peer each tick: the peer's identify
/// endpoint, tagged with the sender's own index.
pub fn hello_url(base: &str, sender: u32) -> (r: String)
    ensures
        r@ == base@ + lit_hello_from() + u32_digits(sender as nat),
{
    let mut out = String::from_str(base);
    out.append("/hello_from/");
    proof {
        reveal_strlit("/hello_from/");
        assert(("/hello_from/")@ =~= lit_hello_from());
    }
    let ds = u32_digits_vec(sender);
    push_chars(&mut out, &ds);
    out
}

/// What the orchestrator's heartbeat calls on a node each tick.
pub fn health_url(base: &str) -> (r: String)
    ensures
        r@ == base@ + lit_health(),
{
    let mut out = String::from_str(base);
    out.append("/health");
    proof {
        reveal_strlit("/health");
        assert(("/health")@ =~= lit_health());
    }
    out
}

/// What the health gate polls on a node: the logged health endpoint.
pub fn health_logged_url(base: &str) -> (r: String)
    ensures
        r@ == base@ + lit_health_logged(),
{
    let mut out = String::from_str(base);
    out.append("/health_logged");
    proof {
        reveal_strlit("/health_logged");
        assert(("/health_logged")@ =~= lit_health_logged());
    }
    out
}

/// Where the membership table is posted on a node.
pub fn nodes_url(base: &str) -> (r: String)
    ensures
        r@ == base@ + lit_nodes(),
{
    let mut out = String::from_str(base);
    out.append("/nodes");
    proof {
        reveal_strlit("/nodes");
        assert(("/nodes")@ =~= lit_nodes());
    }
    out
}

/// The body both health endpoints answer with.
pub open spec fn health_text() -> Seq<char> {
    seq!['h', 'e', 'a', 'l', 't', 'h', 'y']
}

pub fn health_body() -> (r: String)
    ensures
        r@ == health_text(),
{
    let out = String::from_str("healthy");
    proof {
        reveal_strlit("healthy");
        assert(("healthy")@ =~= health_text());
    }
    out
}

} // verus!

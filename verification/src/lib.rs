//! The core of a secure, ephemeral chat server speaking a subset of the IRC
//! line protocol: a shared directory of users, channels, memberships and
//! bounded message histories; a per-connection command handler; a background
//! janitor enforcing message TTLs, session timeouts and channel reaping; a
//! bearer-token issuer and verifier; and an AEAD codec for message payloads.
//!
//! Everything here is verified: each public operation carries a contract
//! that pins down the next directory state and the exact frames to write,
//! and the laws module proves the invariants the server keeps — membership
//! symmetry, closed references, freshness of surviving messages, and the
//! token round trip. Sockets, threads and clocks stay outside; callers hand
//! in bytes and clock readings and write the returned frames out.

use vstd::prelude::*;

pub mod bytes;
pub mod models;
pub mod session;
pub mod frames;
pub mod handler;
pub mod janitor;
pub mod facade;
pub mod json;
pub mod token;
pub mod crypto;
pub mod monitor;
pub mod laws;

verus! {

} // verus!

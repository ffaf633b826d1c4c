//! Core of a two-player peer-to-peer rollback synchronisation engine:
//! a byte-stable input record, session bootstrap over a rendezvous, and the
//! frame-advance / rollback decision procedure.
use vstd::prelude::*;

pub mod bootstrap;
pub mod engine;
pub mod history;
pub mod input;
pub mod sim;

verus! {

} // verus!


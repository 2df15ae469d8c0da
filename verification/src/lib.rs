//! Boot-time and supervision logic of the Raven init system.
use vstd::prelude::*;

pub mod blame;
pub mod boot;
pub mod cgroup;
pub mod config;
pub mod control;
pub mod demand;
pub mod firewall;
pub mod fprint;
pub mod logrotate;
pub mod mount;
pub mod overrides;
pub mod persist;
pub mod ports;
pub mod power;
pub mod quantity;
pub mod ruleset;
pub mod service;
pub mod startup;
pub mod text;

verus! {

} // verus!

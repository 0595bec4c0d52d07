//! A fast TCP port scanner, as a library: the rules of the scan and the
//! bookkeeping of its engine. Sockets, name lookups and files are left to the
//! program that drives it.

pub mod addresses;
pub mod benchmark;
pub mod cidr;
pub mod host;
pub mod input;
pub mod limits;
pub mod planner;
pub mod port_strategy;
pub mod report;
pub mod scanner;
pub mod text;

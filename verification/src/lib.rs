//! The logic of a small network-interface panel: reading the interface list
//! and the details of one interface from `ip` output, formatting byte counts,
//! choosing the interface language, and the decisions of the list.
pub mod control;
pub mod detail;
pub mod lang;
pub mod link;
pub mod numfmt;
pub mod text;

//! Inventory of listening network ports.
//!
//! The library turns the line-oriented output of the operating system's
//! socket-listing facility into typed port records: it parses each line,
//! collapses duplicate (port, pid) pairs, and sorts the survivors by port.
//! A small classifier tells common development ports apart from the rest,
//! a fixed-shape codec renders a record as a JSON object and reads it
//! back, and the outcome of the process-termination facility is
//! classified into success or a typed failure. Spawning the listing and
//! termination facilities is left to the surrounding application; the
//! library works on the captured values alone.

pub mod dev_ports;
pub mod inventory;
pub mod json;
pub mod parse;
pub mod record;
pub mod terminate;

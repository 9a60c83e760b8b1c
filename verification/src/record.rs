//! The port record: one observed socket and its owning process.

use vstd::prelude::*;

verus! {

/// Mathematical model of a port record: the port and pid as machine
/// integers, the textual fields as character sequences.
pub ghost struct PortModel {
    pub port: u32,
    pub process_name: Seq<char>,
    pub pid: u32,
    pub protocol: Seq<char>,
    pub state: Seq<char>,
    pub address: Seq<char>,
}

/// One listening or connected socket, mapped to its owning process.
///
/// `port` and `pid` are always present: a line with an unparsable port or
/// pid is rejected outright and never becomes a partial record.
#[derive(Debug, Clone)]
pub struct Port {
    pub port: u32,
    pub process_name: String,
    pub pid: u32,
    pub protocol: String,
    pub state: String,
    pub address: String,
}

impl View for Port {
    type V = PortModel;

    open spec fn view(&self) -> PortModel {
        PortModel {
            port: self.port,
            process_name: self.process_name@,
            pid: self.pid,
            protocol: self.protocol@,
            state: self.state@,
            address: self.address@,
        }
    }
}

/// The deduplication key of a record: the (port, pid) pair.
pub open spec fn record_key(r: PortModel) -> (u32, u32) {
    (r.port, r.pid)
}

} // verus!

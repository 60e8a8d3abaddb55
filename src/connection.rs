use vstd::prelude::*;

verus! {

/// Transport protocol of a tracked flow.
#[derive(Clone, Copy, Debug, PartialEq, Eq, Hash, Structural)]
pub enum Protocol {
    Tcp,
    Udp,
}

/// A network address as its numeric value: 32 bits for IPv4, 128 bits for IPv6.
#[derive(Clone, Copy, Debug, PartialEq, Eq, Hash, Structural)]
pub enum Address {
    V4(u32),
    V6(u128),
}

/// Tracking state of a flow; `Unknown` when the table line names none.
#[derive(Clone, Copy, Debug, PartialEq, Eq, Hash, Structural)]
pub enum ConnState {
    Established,
    SynSent,
    SynRecv,
    FinWait,
    TimeWait,
    Unknown,
}

/// One tracked network flow. Two connections are the same only when all six
/// fields agree.
#[derive(Clone, Copy, Debug, PartialEq, Eq, Hash, Structural)]
pub struct Connection {
    pub proto: Protocol,
    pub src_ip: Address,
    pub src_port: u16,
    pub dst_ip: Address,
    pub dst_port: u16,
    pub state: ConnState,
}

} // verus!

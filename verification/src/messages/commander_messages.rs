//! Message types exchanged with the simulation controller: what the
//! clients report back to it. The commands it sends them travel over
//! channel endpoints and live with the host around this library.

use vstd::prelude::*;
use std::collections::HashMap;
use crate::messages::general_messages::{Request, ServerType};
use crate::topology::{NodeId, Topology};

verus! {

/// Messages a client sends to the simulation controller.
#[derive(Debug, Clone)]
pub enum SimControllerMessage {
    FloodResponse(u64),
    TopologyResponse(Topology),
    ClientListResponse(NodeId, Vec<NodeId>),
    MessageReceived(NodeId, NodeId, String),
    TextFileResponse(u8, String),
    MediaFileResponse(u8, Vec<u8>),
    FileListResponse(Vec<u8>),
    ServerTypeResponse(NodeId, ServerType),
    KnownServers(HashMap<NodeId, ServerType>),
    RegisteredServersResponse(Vec<u8>),
}

impl Request for SimControllerMessage {

}

/// Events a client reports to the simulation controller.
#[derive(Debug, Clone)]
pub enum SimControllerEvent {
    PacketReceived(u64),
    MessageSent(NodeId, NodeId, String),
    FloodRequestSent,
    PacketSent { session_id: u64, packet_type: String },
    PacketDropped { session_id: u64, packet_type: String },
    PacketForwarded { session_id: u64, packet_type: String, source: NodeId, destination: NodeId },
}

impl Request for SimControllerEvent {

}

/// A message or an event, in one envelope.
#[derive(Debug, Clone)]
pub enum SimControllerResponseWrapper {
    Message(SimControllerMessage),
    Event(SimControllerEvent),
}

} // verus!

//! Message types for a chat client: registration and message exchange.

use vstd::prelude::*;
use crate::messages::general_messages::{Request, Response, ServerTypeRequest, ServerTypeResponse};
use crate::topology::NodeId;

verus! {

/// Requests a chat client sends to a chat server.
#[derive(Debug, Clone)]
pub enum ChatRequest {
    ClientList,
    Register(NodeId),
    SendMessage { from: NodeId, to: NodeId, message: String },
}

impl Request for ChatRequest {

}

/// Responses a chat server sends back.
#[derive(Debug, Clone)]
pub enum ChatResponse {
    ClientList(Vec<NodeId>),
    MessageFrom { from: NodeId, message: Vec<u8> },
    MessageSent,
    ClientRegistered,
}

impl Response for ChatResponse {

}

/// A chat response or a server-type response, in one envelope.
#[derive(Debug, Clone)]
pub enum ChatResponseWrapper {
    Chat(ChatResponse),
    ServerType(ServerTypeResponse),
}

impl Response for ChatResponseWrapper {

}

/// A chat request or a server-type request, in one envelope.
#[derive(Debug, Clone)]
pub enum ChatRequestWrapper {
    Chat(ChatRequest),
    ServerType(ServerTypeRequest),
}

impl Request for ChatRequestWrapper {

}

} // verus!

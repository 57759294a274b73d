//! Message types shared by every participant role.

use vstd::prelude::*;

verus! {

/// Marker for messages a client may send to a server.
pub trait Request {

}

/// Marker for messages a server may send back to a client.
pub trait Response {

}

/// Request for the type of a server (media, chat, text).
#[derive(Debug, Clone)]
pub enum ServerTypeRequest {
    ServerType,
}

impl Request for ServerTypeRequest {

}

/// Response carrying the type of a server.
#[derive(Debug, Clone)]
pub enum ServerTypeResponse {
    ServerType(ServerType),
}

impl Response for ServerTypeResponse {

}

/// The kinds of server a client can talk to.
#[derive(Debug, Clone)]
pub enum ServerType {
    Chat,
    Text,
    Media,
}

} // verus!

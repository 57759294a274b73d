//! Message types for a browsing client: file listings and file fetches.

use vstd::prelude::*;
use crate::messages::general_messages::{Request, Response, ServerTypeRequest, ServerTypeResponse};

verus! {

/// Requests a browsing client sends to a content server.
#[derive(Debug, Clone)]
pub enum BrowserRequest {
    FileList,
    TextFileRequest(u8),
    MediaFileRequest(u8),
}

impl Request for BrowserRequest {

}

/// Responses a content server sends back.
#[derive(Debug, Clone)]
pub enum BrowserResponse {
    FileList(Vec<u8>),
    TextFile(u8, String),
    MediaFile(u8, Vec<u8>),
}

impl Response for BrowserResponse {

}

/// A browsing response or a server-type response, in one envelope.
#[derive(Debug, Clone)]
pub enum BrowserResponseWrapper {
    Chat(BrowserResponse),
    ServerType(ServerTypeResponse),
}

impl Response for BrowserResponseWrapper {

}

/// A browsing request or a server-type request, in one envelope.
#[derive(Debug, Clone)]
pub enum BrowserRequestWrapper {
    Chat(BrowserRequest),
    ServerType(ServerTypeRequest),
}

impl Request for BrowserRequestWrapper {

}

} // verus!

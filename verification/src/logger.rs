//! A leveled logger: this module owns the decision of whether a line
//! is emitted and where it belongs; the host around the library does
//! the actual printing.

use vstd::prelude::*;

verus! {

/// The severity of a log line: informational lines always print,
/// debug lines only when the writer runs with the debug flag, error
/// lines go to the error stream.
#[allow(non_camel_case_types)]
#[derive(Debug, Clone, Copy)]
pub enum LogLevel {
    INFO,
    DEBUG,
    ERROR,
}

/// Identifies the writer of log lines: its role name, its node
/// identifier, and whether it wants debug lines.
pub struct Logger {
    node_type: String,
    node_id: u8,
    debug: bool,
}

impl Logger {
    /// The writer's role name.
    pub closed spec fn node_type_view(&self) -> Seq<char> {
        self.node_type@
    }

    /// The writer's node identifier.
    pub closed spec fn node_id_view(&self) -> u8 {
        self.node_id
    }

    /// Whether debug lines are wanted.
    pub closed spec fn debug_view(&self) -> bool {
        self.debug
    }

    /// Create a logger for one writer.
    pub fn new(node_type: String, node_id: u8, debug: bool) -> (r: Logger)
        ensures
            r.node_type_view() == node_type@,
            r.node_id_view() == node_id,
            r.debug_view() == debug,
    {
        Logger { node_type, node_id, debug }
    }

    /// The writer's role name, for the line header.
    pub fn node_type(&self) -> (r: &String)
        ensures
            r@ == self.node_type_view(),
    {
        &self.node_type
    }

    /// The writer's node identifier, for the line header.
    pub fn node_id(&self) -> (r: u8)
        ensures
            r == self.node_id_view(),
    {
        self.node_id
    }

    /// Whether a line of this level is emitted at all: informational
    /// and error lines always, debug lines only under the debug flag.
    pub fn should_emit(&self, log_level: &LogLevel) -> (r: bool)
        ensures
            r == (match log_level {
                LogLevel::INFO => true,
                LogLevel::DEBUG => self.debug_view(),
                LogLevel::ERROR => true,
            }),
    {
        match log_level {
            LogLevel::INFO => true,
            LogLevel::DEBUG => self.debug,
            LogLevel::ERROR => true,
        }
    }

    /// Whether a line of this level belongs on the error stream.
    pub fn uses_error_stream(&self, log_level: &LogLevel) -> (r: bool)
        ensures
            r == (match log_level {
                LogLevel::INFO => false,
                LogLevel::DEBUG => false,
                LogLevel::ERROR => true,
            }),
    {
        match log_level {
            LogLevel::INFO => false,
            LogLevel::DEBUG => false,
            LogLevel::ERROR => true,
        }
    }
}

} // verus!

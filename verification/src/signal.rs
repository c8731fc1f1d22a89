//! Notices broadcast between the parts of a running node.
use vstd::prelude::*;

verus! {

/// A notice from one part of the node to the others.
#[derive(Clone, Debug)]
pub enum BroadcastSignal {
    /// Stop everything.
    Shutdown,
    /// The file being transferred.
    TaskInfo { file_name: String, file_size: u64, file_hash: String },
    /// How far the transfer has come.
    ProgressUpdate { downloaded_blocks: usize, total_blocks: usize },
    /// A line for the log view.
    ConsoleLog(String),
}

/// A key pressed in the transfer view.
#[derive(Clone, Copy, Debug, PartialEq, Eq, Structural)]
pub enum ViewKey {
    Char(char),
    Esc,
    Other,
}

/// The keys that stop the node: `q` and Escape.
pub open spec fn spec_stops_node(key: ViewKey) -> bool {
    key == ViewKey::Char('q') || key == ViewKey::Esc
}

/// The notice a key press sends: `Shutdown` for `q` and Escape, none for any
/// other key.
pub fn signal_for_key(key: ViewKey) -> (r: Option<BroadcastSignal>)
    ensures
        r is Some <==> spec_stops_node(key),
        r matches Some(s) ==> s is Shutdown,
        r is Some <==> (key == ViewKey::Char('q') || key == ViewKey::Esc),
{
    match key {
        ViewKey::Char(c) => {
            if c == 'q' {
                Some(BroadcastSignal::Shutdown)
            } else {
                None
            }
        },
        ViewKey::Esc => Some(BroadcastSignal::Shutdown),
        ViewKey::Other => None,
    }
}

} // verus!

//! The failures that the engine reports to its callers.

use vstd::prelude::*;

verus! {

/// Why a request to the engine was turned down.
#[derive(Debug, Clone, Copy, PartialEq, Eq, Structural)]
pub enum SearchError {
    /// The message sequence breaks the archive's rules at this position: the
    /// message's identifier is not its position, or it replies to a later
    /// message.
    MalformedArchive { position: usize },
    /// The archive holds more messages than thread identifiers can number.
    ArchiveTooLarge,
    /// The query string is no query; the offending token starts at this
    /// character.
    QuerySyntax { position: usize },
    /// No thread has this identifier.
    ThreadOutOfRange { thread_id: usize },
    /// No message has this identifier.
    MessageOutOfRange { message_id: usize },
}

} // verus!

//! Search over an archived conversation.
//!
//! The messages of the archive are grouped into reply threads
//! ([`thread_dsu`], [`threads`]), the threads are indexed by the normal forms
//! of their words ([`text`], [`lemmatizer`], [`index`]), boolean queries are
//! read ([`query`], [`grammar`]) and answered by merging posting lists
//! ([`posting`], [`merge`]), the threads found are put in the order of
//! showing ([`rank`]), and messages are laid out in spans with the words of
//! a query marked ([`highlight`]). [`searcher`] holds the engine that puts
//! these together; [`message`] and [`error`] hold what goes in and what can
//! go wrong.
//!
//! Every function states what it returns over sequences of characters and
//! of identifiers, and the statements are proved. What is taken on trust is
//! little: that the standard library's `char::is_alphanumeric` and
//! `str::to_lowercase` are functions of their argument, that `String::push`
//! appends, and that a lemmatizer gives each word one canonical form.

pub mod error;
pub mod grammar;
pub mod highlight;
pub mod index;
pub mod lemmatizer;
pub mod merge;
pub mod message;
pub mod posting;
pub mod query;
pub mod rank;
pub mod searcher;
pub mod text;
pub mod thread_dsu;
pub mod threads;

pub use error::SearchError;
pub use highlight::Text;
pub use lemmatizer::{DictionaryLemmatizer, FnLemmatizer, Lemmatizer};
pub use message::{Message, TextEntity};
pub use query::SearchQuery;
pub use searcher::{MessageResult, Searcher, ThreadSearchResult};

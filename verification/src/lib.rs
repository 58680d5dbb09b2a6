//! Background chain-synchronization service core.
//!
//! The library holds the decision logic of a light client's sync task: the
//! discipline that turns sync-machine actions into network requests and
//! cancellations (`relay`), the lossy single-slot notification channels that
//! fan best- and finalized-block headers out to subscribers (`lossy`), the
//! parachain head-derivation state with its duplicate suppression (`para`),
//! and the SCALE codecs for block headers and the parachain validation-data
//! query (`codec`). The asynchronous shell that owns the sockets, the task
//! executor and the sync state machine drives these cores from outside.

pub mod subseq;

pub mod lossy;

pub mod handles;

pub mod hashing;

pub mod codec;

pub mod relay;

pub mod para;

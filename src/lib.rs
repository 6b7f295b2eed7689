//! Owner side of the X selection protocol: answers selection requests from
//! other clients out of a store of published payloads, and streams large
//! payloads with the incremental (INCR) convention.
//!
//! The library holds the protocol decisions only. The caller waits for
//! protocol events, hands them in as plain values, and performs the
//! returned actions on its connection.

mod server;
mod store;

pub use server::{
    advanced, chunk, chunks_of, fits_directly, has_property, has_selection,
    lemma_transfer_delivers_rest, models, notify_of, registry_wf, Action, ActionModel, Atoms,
    Config, Request, Server, Transfer, TransferModel, HEADER_MARGIN, INCR_CHUNK_SIZE, NONE,
};
pub use store::{copy_range, Store, TargetTable};

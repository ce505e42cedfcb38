//! Binary Byzantine agreement from a common coin: the state machine of one
//! instance of the protocol of Mostefaoui, Moumen and Raynal.
//!
//! Each of N nodes, of which up to f may be faulty, proposes a bit, and the
//! nodes that are not faulty decide on one bit. An [`agreement::Agreement`]
//! is one node's part in this: it takes the node's input and the messages
//! of the other nodes, and gives the messages to send and, once, the
//! decision.
//!
//! - `bin_values`: the subsets of `{false, true}`.
//! - `message`: the messages, their targets, and the errors.
//! - `netinfo`: what an instance knows of the network.
//! - `tally`: counting senders.
//! - `model`: the protocol as a mathematical state machine.
//! - `agreement`: the instance, each of whose calls is a transition of the model.
//! - `laws`: what holds of every transition and of every run.
//! - `ledger`: no message is sent twice.
//! - `buffer`: messages that come early are handled as if they came in time.
//! - `census`: what the counts of the senders say of the state.
//! - `headroom`: when an instance cannot run out of epochs.

pub mod agreement;
pub mod bin_values;
pub mod buffer;
pub mod census;
pub mod headroom;
pub mod laws;
pub mod ledger;
pub mod message;
pub mod model;
pub mod netinfo;
pub mod tally;

//! Core of a replicated pixel canvas.
//!
//! Replicas are wired into a one-way ring. One of them is the primary; it
//! originates pixel updates, which travel once around the ring and come back
//! as their own confirmation. This crate holds the decisions of one replica:
//! the ring topology over the manifest, the wire grammar, the election, the
//! bookkeeping of unconfirmed updates and the last-writer-wins canvas.
//!
//! The crate performs no input or output. [`manager::ReplicaManager`] takes
//! events and answers with the actions that the embedding program has to
//! carry out.
//!
//! | module        | holds                                                      |
//! |---------------|------------------------------------------------------------|
//! | [`manifest`]  | the cluster description and the ring it defines            |
//! | [`protocol`]  | the frames on the ring: reading and writing them           |
//! | [`link`]      | the framing of the byte stream between two replicas        |
//! | [`registry`]  | the sessions attached to this replica                      |
//! | [`pending`]   | the updates that have not come back yet                    |
//! | [`departure`] | the departures that this replica has announced             |
//! | [`election`]  | the election on the ring, and its law                      |
//! | [`pixel`]     | pixels and the last-writer-wins canvas                     |
//! | [`message`]   | events, actions and the values that travel as JSON         |
//! | [`machine`]   | the replica as a state machine over mathematical values    |
//! | [`manager`]   | the executable replica, held to the machine                |
//! | [`handler`]   | one websocket session                                      |
//! | [`config`]    | the settings read from the environment                     |

pub mod config;
pub mod departure;
pub mod election;
pub mod handler;
pub mod link;
pub mod machine;
pub mod manager;
pub mod manifest;
pub mod message;
pub mod pending;
pub mod pixel;
pub mod protocol;
pub mod registry;

pub use crate::handler::canvas_ws;
pub use crate::manager::{ConfigError, ReplicaManager};
pub use crate::manifest::{ConnectionInfo, ConnectionInfoDict, NewConMessage, ReplicaInfo};
pub use crate::message::{Action, Body, Command, DialPurpose, Event, SyncMessage};
pub use crate::pixel::{Canvas, Pixel};

//! Core of a tiling window manager: length units and geometry, the container
//! tree with its structural invariants, the layout engine, the command
//! pipeline, the event bus types, and the pure part of the IPC protocol.
//!
//! Everything here is synchronous and free of I/O; the surrounding process
//! (sockets, the platform backend) hands plain values in and takes plain
//! values back.
pub mod commands;
pub mod events;
pub mod geometry;
pub mod ipc;
pub mod layout;
pub mod text;
pub mod tree;
pub mod workspaces;

//! Multi-screen streaming between two peers: the wire format, the sharer's and the viewer's
//! decisions, and what the launchers around them decide and show.
//!
//! - [`protocol`]: the bytes of a connection, a handshake and then frames.
//! - [`session`]: an address as a short code that can be read out.
//! - [`capture`], [`sender`]: from a captured screen to the bytes that are sent.
//! - [`view`], [`layout`], [`picture`], [`scale`]: from a received frame to the pixels of a window.
//! - [`slot`], [`traffic`]: the newest frame of each stream, and how much went by.
//! - [`statline`], [`monitor`]: reports read back, and what is kept of them.
//! - [`settings`], [`launcher`], [`runner`]: running a session as a process of its own.
//! - [`text`]: small texts that the others are made of.
//!
//! Sockets, threads, windows and screens are the callers' business: everything here goes from
//! values to values.

pub mod capture;
pub mod launcher;
pub mod layout;
pub mod monitor;
pub mod picture;
pub mod protocol;
pub mod runner;
pub mod scale;
pub mod sender;
pub mod session;
pub mod settings;
pub mod slot;
pub mod statline;
pub mod text;
pub mod traffic;
pub mod view;

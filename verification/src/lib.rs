//! Cursor files from pixels, and pixels from cursor files.
//!
//! The verified core of a Windows cursor tool: an RGBA bitmap with the
//! geometric edits a user can make to artwork, the `.cur`, `.ani` and `.ico`
//! writers written against their byte layouts, a reader for `.cur`, `.ico` and `.ani`
//! files that trusts nothing a file declares (and reads back exactly what
//! the writers wrote), the background cut an imported picture goes through,
//! the tracing of a flat logo's shapes and the contact sheets artwork is
//! judged on, and the decisions the pointer scheme is managed by.

pub mod error;
pub mod bitmap;
pub mod cur_writer;
pub mod ico_writer;
pub mod icon_reader;
pub mod round_trip;
pub mod ani_writer;
pub mod ani_reader;
pub mod ani_round_trip;
pub mod roles;
pub mod scheme;
pub mod pipeline;
pub mod hotspot;
pub mod matte;
pub mod regions;
pub mod board;
pub mod keying;
pub mod crumbs;
pub mod despill;
pub mod keyability;
pub mod text;
pub mod channel;
pub mod cursor;
pub mod restore;
pub mod crosschannel;
pub mod settings;
pub mod engine;
pub mod commands;
pub mod diagnostics;
pub mod watchdog;
pub mod backup;
pub mod autostart;
pub mod rescale;
pub mod trace;
pub mod sheet;

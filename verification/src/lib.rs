//! Buses in KiCad schematics: segments, entries, the fan-out of pins onto a bus,
//! and bus aliases.
//!
//! A bus is three things drawn together, and all three have to agree or it
//! carries nothing:
//!
//! - the **segment**, geometrically a wire;
//! - an **entry** per member, the tick that bridges the gap between a wire and
//!   the bus ([`entry`]);
//! - a **label** on every wire stub that names the member, and one on the bus
//!   that names the group ([`label`]).
//!
//! Membership is by name, never by geometry. A label can name a whole bundle of
//! signals by a bus alias, which some sheet of the design has to define
//! ([`alias`], [`block`]). A reference to an alias that no sheet defines is not
//! an error to KiCad, it just yields the wrong netlist; [`report`] checks for
//! that over all the sheets of a design ([`hierarchy`]).
//!
//! The library decides and computes on texts and plain values. It reads no file,
//! and it leaves coordinates to its caller.

pub mod add_alias;
pub mod alias;
pub mod block;
pub mod block_laws;
pub mod block_reading;
pub mod definitions;
pub mod draw;
pub mod draw_laws;
pub mod entry;
pub mod finding_laws;
pub mod hierarchy;
pub mod kept_laws;
pub mod label;
pub mod path;
pub mod place_laws;
pub mod reference_laws;
pub mod report;
pub mod report_laws;
pub mod sheet;
pub mod spelling_laws;
pub mod symbols;
pub mod text;
pub mod text_laws;
pub mod tool;
pub mod tree;
pub mod view_laws;

pub use hierarchy::hierarchy_files;
pub use label::{alias_reference, split_group_bus};
pub use path::file_label;
pub use sheet::{alias_insert_offset, close_of_node};
pub use tool::tools;

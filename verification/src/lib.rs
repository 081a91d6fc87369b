//! A safe, verified bridge to a register/stack-based scripting virtual
//! machine.
//!
//! The crate models the machine's operand stack, table heap, registry and
//! globals as plain data ([`state::State`], with [`state::SpecState`] as
//! its mathematical model), and builds on that model everything a host
//! needs to exchange structured values with the machine:
//!
//! * [`state::State`] — the machine state and its raw operation set:
//!   push/pop primitives, table reads and writes, the table traversal
//!   step, globals and registry slots, each with an exact contract;
//! * [`lref::LRef`] — the Reference Arena: a registry-backed handle that
//!   keeps a value alive and retrievable while the operand stack changes
//!   shape underneath it;
//! * [`ser`] and [`de`] — the serializer and deserializer: the two
//!   converters that transcode structured host data ([`data::Data`]) to
//!   and from the machine's stack representation, covering primitives,
//!   optional values, sequences, maps and the four enum-variant shapes;
//! * [`stack`], [`globals`], [`table`], [`guard`] — the typed convenience
//!   layer over the machine state.
//!
//! # What the contracts state
//!
//! The central spec function is [`codec::decode_val`]: the structured
//! value a machine value denotes over a table heap.  The serializer
//! promises that what it pushes decodes to the data it was given
//! ([`state::State::push_data`]); the deserializer promises that what it
//! returns *is* the decoding ([`state::State::pull_data`]), and says when
//! success is owed.  Together they give the round-trip law, executed by
//! [`state::State::round_trip`]: whatever of a supported shape
//! ([`data::rt_ok`]) goes in comes back equal.
//!
//! Every bridge operation's contract also states its exact net effect on
//! the operand stack, so stack neutrality is part of each signature; and
//! the Reference Arena's slot accounting is stated over
//! [`state::occupied`], with
//! [`lref::lemma_register_release_neutral`] proving that a register
//! followed by a release leaves the occupied-slot count where it was.

pub mod codec;
pub mod data;
pub mod de;
pub mod error;
pub mod globals;
pub mod guard;
pub mod lref;
pub mod memory;
pub mod ser;
pub mod stack;
pub mod state;
pub mod table;
pub mod table_data;
pub mod value;

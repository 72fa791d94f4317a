//! Logic of a small input-method switcher dialog: parsing the GTK IM module
//! registry file into an ordered module list, matching typed text against
//! module names, formatting key-press labels, and deciding which module a
//! selection or an entry activation applies.
//!
//! The GUI around this — widget construction, signal wiring, reading the
//! registry file and the environment, switching the input context — stays
//! outside; it hands these functions plain strings and takes plain values
//! back.

pub mod keys;
pub mod registry;
pub mod select;
pub mod text;

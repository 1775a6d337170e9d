//! Turns the declaration of a record into the declaration of its
//! data-transfer object.
//!
//! [`parser`] reads the record's name and fields out of a source text, line
//! by line and by textual cues alone; [`generator`] writes the new
//! declaration from them. Neither touches a file: a caller hands the text
//! in and stores what comes back.
//!
//! What the two compute is defined over sequences of characters: [`text`]
//! holds lines and tokens, [`scan`] the reading of a record, and
//! [`generator`] the template of the declaration. [`invariants`],
//! [`well_formed`], [`source`] and [`pipeline`] prove what follows from
//! these definitions.

pub mod domain;
pub mod generator;
pub mod invariants;
pub mod parser;
pub mod pipeline;
pub mod scan;
pub mod source;
pub mod text;
pub mod well_formed;

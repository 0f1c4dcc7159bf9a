//! Hatanaka Compact RINEX (CRINEX) differential codec.
//!
//! The library holds the per-field differencing kernels, the parsing and
//! formatting of fixed-column epoch and observation records, the record
//! state machine that turns a CRINEX record stream back into RINEX text, and
//! the encoder that goes the other way.
pub mod error;
pub mod numdiff;
pub mod textdiff;
pub mod fields;
pub mod epoch;
pub mod obsline;
pub mod header;
pub mod registry;
pub mod decoder;
pub mod encoder;

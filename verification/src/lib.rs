//! Locally encrypted persistence for transcription sessions, together with
//! the speaker-identity resolution pipeline that turns diarized audio into
//! durable, deduplicated speaker profiles.
//!
//! - [`crypto`]: passphrase-derived keys and field-level authenticated
//!   encryption, a pass-through when no passphrase is configured.
//! - [`store`]: the relational store — sessions, speakers, segments,
//!   embeddings — holding every sensitive field in its at-rest shape,
//!   with atomic cascades and the referential rules as a proved invariant.
//! - [`vector`]: the packed binary form embedding vectors take at rest.
//! - [`audio`]: diarized-segment normalization and per-cluster bucketing of
//!   a clip's samples.
//! - [`bits`]: the ordering of similarity scores, carried as the raw bit
//!   patterns of single-precision values.
//! - [`resolver`]: the resolution pass mapping cluster labels to speakers —
//!   threshold matching, auto-labeling, enrollment, and segment persistence.
//! - [`config`]: the application settings the surrounding process persists.

use vstd::prelude::*;

pub mod audio;
pub mod bits;
pub mod config;
pub mod crypto;
pub mod resolver;
pub mod store;
pub mod vector;

verus! {

} // verus!

//! Date tokens and workout text for a WeightXReps client.
//!
//! The library resolves loosely written date tokens (`2025`, `2025-05`,
//! `20250527`, `2025/05/01..2025/05/31`) to calendar dates and ranges,
//! lists the days that ranges cover, and renders the sets of a training
//! day as compact text.
//!
//! Every function carries a contract that Verus proves. Two calls leave the
//! library and are trusted as their documentation describes them: chrono
//! decides which days exist (`calendar`), and the base64 crate decodes the
//! payload of an access token (`auth`).

pub mod api;
pub mod auth;
pub mod boundary_proofs;
pub mod calendar;
pub mod expand;
pub mod formatter_proofs;
pub mod formatters;
pub mod listing;
pub mod models;
pub mod text;
pub mod utils;

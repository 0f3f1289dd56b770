//! Neutral monitor layout profiles.
//!
//! A profile is a TOML file: a set of `match` signatures identifying a
//! display arrangement, plus the geometry to apply when it matches. The
//! format is compositor-agnostic on purpose: a session manager and a login
//! screen must produce the same arrangement without sharing a compositor or
//! a configuration dialect.
//!
//! TOML is the only hand-edited source of truth ([`to_toml`] writes it);
//! Hyprland `.lua`/`.conf` files are render artifacts ([`render`]), and
//! [`legacy`] converts old dialect files once. A malformed profile is
//! skipped with a diagnostic, never a panic and never a failed load.
pub mod text;
pub mod num;
pub mod model;
pub mod legacy;
pub mod matching;
pub mod layout;
pub mod serialize;
pub mod render;
pub mod parse;
pub mod files;

pub use layout::{ConnectedOutput, Metrics, ResolvedLayout, ResolvedOutput, resolve, resolve_all};
pub use matching::{match_in_signature, select};
pub use model::{EdpPolicy, GpuPref, Mode, Monitor, Number, Profile, WorkspaceRule};
pub use parse::{Diagnostic, from_raw};
pub use serialize::to_toml;
pub mod readback;

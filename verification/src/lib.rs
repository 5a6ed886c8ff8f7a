//! Narration context for coding agents: hook decisions, event merging and
//! filtering, editor-state resolution, the capture threads' decisions and the
//! Zed integration, with their contracts proved by Verus.

pub mod hook_types;
pub mod text;
pub mod model;
pub mod merge;
pub mod merge_laws;
pub mod event_text;
pub mod paths;
pub mod filter;
pub mod filter_laws;
pub mod json;
pub mod capture;
pub mod diff_capture;
pub mod jsonc;
pub mod zed;
pub mod narrate;
pub mod status;
pub mod hook_command;
pub mod hook_decision;
pub mod hook_state;

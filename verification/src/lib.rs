//! Semantic coding-agent awareness for terminal multiplexer panes: detection
//! manifests, per-pane agent state machines, sanitized display metadata,
//! notification batching, the engine's event-driven core and the sidebar view.

pub mod model;
pub mod state;
pub mod text;
pub mod sanitize;
pub mod protocol;
pub mod notification;
pub mod view;
pub mod overrides;
pub mod manifest;
pub mod idmap;
pub mod inventory;
pub mod strmap;
pub mod engine;
pub mod sidebar;

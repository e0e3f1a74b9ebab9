//! The logic of the editor: documents, panels, tools and protocols.
pub mod audio;
pub mod claude_sessions;
pub mod commands;
pub mod dap;
pub mod debug_config;
pub mod encoding;
pub mod ext_runtime;
pub mod exthost;
pub mod feedback_upload;
pub mod framing;
pub mod graph;
pub mod gutter_diff;
pub mod highlight;
pub mod icon;
pub mod json;
pub mod macos_launcher;
pub mod markdown;
pub mod mcp;
pub mod paths;
pub mod perf;
pub mod search;
pub mod search_rows;
pub mod syntax;
pub mod text;
pub mod theme;
pub mod ui;
pub mod update;
pub mod virtual_display;
pub mod voice;
pub mod webview;
pub mod webview_shim;
pub mod workspace;

//! Duplicate-code review: the logic behind a desktop viewer for duplicate
//! groups, and the per-language normalization that finds them.

pub mod app_state;
pub mod blame;
pub mod dates;
pub mod detail;
pub mod detail_rows;
pub mod equality;
pub mod highlight;
pub mod history_badge;
pub mod llm_prompt;
pub mod logging;
pub mod menubar;
pub mod normalize;
pub mod paths;
pub mod profile;
pub mod project_view;
pub mod python;
pub mod recent;
pub mod rust;
pub mod sidebar_prefs;
pub mod suppressions_view;
pub mod syntax_tree;
pub mod text;
pub mod tint;
pub mod toast;
pub mod typescript;

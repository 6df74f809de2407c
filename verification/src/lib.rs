//! A colorful directory-tree lister: the verified core.
//!
//! The modules hold the pure logic of the tool: text building, the
//! natural ("version") order of names, calendar arithmetic for timestamps,
//! `LS_COLORS` parsing, permission strings, which directory entries show
//! and in what order, entry lines and summaries, tree rendering (plain,
//! JSON, XML), name patterns, and the state of the interactive view.
//! Reading the disk, the terminal and the command line is left to the
//! caller, which hands these functions plain values.

pub mod colors;
pub mod line;
pub mod listing;
pub mod natural;
pub mod pattern;
pub mod perms;
pub mod render;
pub mod text;
pub mod timefmt;
pub mod tree;
pub mod tui;
pub mod walk;

pub use colors::{ansi_code_to_color, ratatui_color_for_name, LsColors, TermColor};
pub use line::{format_line, LineFacts};
pub use listing::{order_children, ChildEntry};
pub use natural::{natural_cmp, natural_cmp_checked};
pub use pattern::{NamePattern, PatternError};
pub use perms::{format_perms, perms_rwx, FileKind};
pub use render::{json_escape, output_json, output_xml, print_json, print_xml, xml_escape};
pub use timefmt::format_timestamp;
pub use tree::{find_match_range, flatten, RenderLine, TreeNode};
pub use walk::{ColorMode, Counters, OutputFmt, SortBy, WalkFlags, WalkOpts};

pub mod dot;
pub mod graph;
pub mod manifest;
pub mod order;
pub mod reach;
pub mod scc;

pub use dot::render_dot;
pub use graph::{build_graph, detect_cycles, Graph};
pub use manifest::{
    crate_info_from_document, crate_info_from_text, member_pattern, workspace_members, workspace_members_from_text, CrateInfo, ManifestError,
    TomlValue, WorkspaceMember,
};

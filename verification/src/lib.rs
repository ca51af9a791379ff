pub mod assoc;
pub mod dag;
pub mod docs;
pub mod editor_id;
pub mod generic_regional;
pub mod lexer;
pub mod mappings;
pub mod numeric_ids;
pub mod parsing;
pub mod paths;
pub mod project_files;
pub mod project_graph;
pub mod region_graph;
pub mod regional;
pub mod reroute;
pub mod side_effects;
pub mod storage;
pub mod text;
pub mod thing_item;
pub mod undo;
pub mod variables;

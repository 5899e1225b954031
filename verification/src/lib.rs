//! Logic of a local diff viewer.

pub mod text;
pub mod diff;
pub mod highlight;
pub mod rows;
pub mod layout_laws;
pub mod hunk_laws;
pub mod overlay;
pub mod tree;
pub mod collapse;
pub mod tree_laws;
pub mod tree_paths;
pub mod tree_order;
pub mod tree_reorder;
pub mod tree_shape;
pub mod fuzzy;
pub mod selection;
pub mod item;
pub mod navigate;
pub mod viewer;
pub mod sidebar;
pub mod viewer_laws;
pub mod labels;

//! A board of boxes and connectors, a markdown outline as a tree, and the
//! rules by which both change.

pub mod api;
pub mod app;
pub mod app_laws;
pub mod canvas_io;
pub mod collab;
pub mod draw_laws;
pub mod editing;
pub mod endings;
pub mod file_laws;
pub mod frame_laws;
pub mod geometry;
pub mod gesture_laws;
pub mod graph;
pub mod grid;
pub mod input_laws;
pub mod key_laws;
pub mod keys;
pub mod layout;
pub mod layout_laws;
pub mod layout_order_laws;
pub mod line_laws;
pub mod links;
pub mod mind_app;
pub mod mind_laws;
pub mod mind_render;
pub mod mindmap;
pub mod minimap;
pub mod model;
pub mod mouse;
pub mod mouse_laws;
pub mod outline;
pub mod outline_laws;
pub mod outline_move_laws;
pub mod paint;
pub mod plain;
pub mod pointer;
pub mod render;
pub mod request_laws;
pub mod route;
pub mod route_laws;
pub mod session;
pub mod sheet;
pub mod sidecar;
pub mod sidecar_laws;
pub mod size_laws;
pub mod step_laws;
pub mod sync;
pub mod sync_laws;
pub mod table;
pub mod table_edit_laws;
pub mod table_laws;
pub mod target;
pub mod text;
pub mod wires;

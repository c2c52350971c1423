//! A terminal UI tiling engine: geometry, layout, junction resolution, buffers
//! and widgets, with their behaviour stated and proved.
pub mod geometry;
pub mod style;
pub mod border;
pub mod junction;
pub mod textops;
pub mod capabilities;
pub mod sorting;
pub mod float;
pub mod graph;
pub mod record;
pub mod spacefill;
pub mod buffer;
pub mod backend;
pub mod layout;
pub mod diff;
pub mod outline;
pub mod label;
pub mod render;
pub mod panel;
pub mod input;
pub mod edit;
pub mod form;
pub mod socket;
pub mod runaround;
pub mod field;
pub mod curve_map;
pub mod route;
pub mod refine;

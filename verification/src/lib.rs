//! Verified core of a CAM library for router tool paths: grid walks, G-code
//! lines and the bookkeeping between them.
pub mod algorithms;
pub mod bit_path;
pub mod cnc_router;
pub mod rectangle_connections;
pub mod polygon_tree;
pub mod gcode_creator;
pub mod sign;

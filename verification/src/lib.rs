pub mod classic;
pub mod lane_edit;
pub mod lanes;
pub mod strings;
pub mod tags;
pub mod types;
pub mod placement;
pub mod turns;
pub mod ids;
pub mod road_parts;
pub mod road_functions;
pub mod marking;
pub mod transform;
pub mod names;
pub mod road;
pub mod classify;
pub mod sequences;
pub mod network;
pub mod collapse;
pub mod block;
pub mod complexity;
pub mod disconnected;
pub mod degenerate;
pub mod offsets;
pub mod short_roads;
pub mod sausage;
pub mod movements;
pub mod planar;
pub mod sidepath;
pub mod ramps;
pub mod laws;
pub mod rule_laws;

pub mod block_occupier;
pub mod delay;
pub mod lookahead_driver;
pub mod traffic_lights;

//! Game events, vibrations and sculk sensors.
pub mod binary64;
pub mod position;
pub mod event;
pub mod distance;
pub mod block;
pub mod ray;
pub mod sampling;
pub mod touch;
pub mod occlusion;
pub mod emission;
pub mod reach;
pub mod sculk_sensor;
pub mod particle;
pub mod offer;
pub mod nbt;
pub mod calibrated_sculk_sensor;

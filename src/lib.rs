//! Multi-touch drag tracking: per-finger motion state and its per-frame aggregate.

pub mod gestures;

//! A slime-mold (Physarum) trail simulation: a toroidal byte field that agents
//! deposit into, blurred and decayed each tick by a work-queue pass that only
//! visits the cells that can carry trail.

pub mod grid;
pub mod trail;
pub mod dish;
pub mod steer;

//! Right-click orders: what the cursor promises, and the job it gives.
use vstd::prelude::*;
use crate::world::Job;
use hecs::Entity;

verus! {

/// A right-click resolved against the world.
#[derive(Clone, Debug)]
pub struct Order {
    /// What the cursor promises: "Chop oak", "Hunt deer", "Go here".
    pub label: String,
    pub job: Job,
    /// Claimed when the order is given, so nobody else takes the same work.
    pub reserve: Vec<Entity>,
}

} // verus!

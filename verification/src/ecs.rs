use vstd::prelude::*;

verus! {

/// Marks an entity as a projectile.
pub struct Projectile;

} // verus!

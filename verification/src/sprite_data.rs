//! Sprite-sheet configuration records, as loaded by the presentation
//! layer, and the validity check the loader runs on them.

use vstd::prelude::*;

use std::collections::HashMap;

verus! {

/// Options describing one sprite set of a texture atlas: the texture name,
/// the tile size, one or more x/y position pairs, and optional tiling and
/// named-variant tables.
pub struct SpriteSetOptions {
    pub texture: String,
    pub size: (u32, u32),
    pub position: Vec<u32>,
    pub tile: Option<(u32, u32)>,
    pub variants: Option<HashMap<String, (u32, u32)>>,
}

impl SpriteSetOptions {
    /// Accepts the options exactly when `position` holds one or more
    /// complete x/y pairs.
    pub fn validate(self) -> (r: Result<SpriteSetOptions, &'static str>)
        ensures
            r is Ok <==> self.position@.len() >= 2 && self.position@.len() % 2 == 0,
            r matches Ok(o) ==> o == self,
            r matches Err(m) ==> m@ == "Sprite `position` should be one or more x/y pairs"@,
    {
        let num_coords = self.position.len();
        if num_coords < 2 || num_coords % 2 != 0 {
            return Err("Sprite `position` should be one or more x/y pairs");
        }
        Ok(self)
    }
}

} // verus!

use vstd::prelude::*;

verus! {

/// A kind of scene object that owns a node of a `Scene`.
pub trait HasObject3D {
    /// The handle of the node that carries this object's transform.
    spec fn node(&self) -> usize;

    /// Returns that handle.
    fn scene_object(&self) -> (r: usize)
        ensures
            r == self.node(),
    ;
}

/// A camera-facing quad placed in the scene by its node.
pub struct Sprite {
    pub scene_object: usize,
}

impl HasObject3D for Sprite {
    open spec fn node(&self) -> usize {
        self.scene_object
    }

    fn scene_object(&self) -> (r: usize) {
        self.scene_object
    }
}

} // verus!

use vstd::prelude::*;

verus! {

/// How a scene is sampled: the bounce depth after which only emitted light
/// counts, and the samples taken per pixel.
#[derive(Copy, Clone, Debug)]
pub struct RenderOpts {
    pub max_depth: u32,
    pub samples: u32,
}

/// The scene's objects in a flat list, the baseline that nearest-hit search
/// walks from first to last.
pub struct SceneObjectList<O> {
    pub objects: Vec<O>,
}

impl<O> SceneObjectList<O> {
    /// An empty list.
    pub fn new() -> (list: SceneObjectList<O>)
        ensures
            list.objects@.len() == 0,
    {
        SceneObjectList { objects: Vec::new() }
    }

    /// Appends `object` at the end of the list.
    pub fn push(&mut self, object: O)
        ensures
            final(self).objects@ == old(self).objects@.push(object),
    {
        self.objects.push(object);
    }
}

} // verus!

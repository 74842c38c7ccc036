//! A builder that makes the tree of an object space once.

use crate::builder::{live_hull, rebuild_obj_space, rebuilt, rebuilt_tree};
use crate::mbr::volume_fits;
use crate::obj_space::ObjSpace;
use crate::tree::DEFAULT_ALPHA;
use vstd::prelude::*;

verus! {

/// An object space, the quantile to build its tree with, in hundredths,
/// and whether the tree was built.
#[derive(Debug)]
pub struct LRTreeBuilder<ObjectT> {
    pub obj_space: ObjSpace<ObjectT>,
    pub alpha: usize,
    pub is_built: bool,
}

impl<ObjectT> LRTreeBuilder<ObjectT> {
    /// The builder can build: the space holds what a space must, the
    /// quantile is at most one half, and the volume of the common rectangle
    /// of the live data fits in `i64`.
    pub open spec fn ready(&self) -> bool {
        &&& self.obj_space@.base_ok()
        &&& self.alpha <= 50
        &&& volume_fits(live_hull(self.obj_space@))
    }

    /// A builder for `obj_space`, with the default quantile; nothing is built
    /// yet.
    pub fn with_obj_space(obj_space: ObjSpace<ObjectT>) -> (r: Self)
        ensures
            r.obj_space == obj_space,
            r.alpha == DEFAULT_ALPHA,
            !r.is_built,
    {
        LRTreeBuilder { obj_space, alpha: DEFAULT_ALPHA, is_built: false }
    }

    /// Sets the quantile to `alpha` hundredths and builds.
    pub fn build_with_alpha(&mut self, alpha: usize)
        requires
            alpha <= 50,
            old(self).obj_space@.base_ok(),
            volume_fits(live_hull(old(self).obj_space@)),
        ensures
            final(self).is_built,
            final(self).alpha == alpha,
            final(self).obj_space.payloads() == old(self).obj_space.payloads(),
            old(self).is_built || old(self).obj_space@.live_num == 0 ==> final(self).obj_space@
                == old(self).obj_space@,
            !old(self).is_built && old(self).obj_space@.live_num > 0 ==> rebuilt(
                old(self).obj_space@,
                final(self).obj_space@,
            ) && final(self).obj_space@ == rebuilt_tree(old(self).obj_space@, alpha as nat),
    {
        self.alpha = alpha;
        self.build();
    }

    /// Builds the tree over all live data nodes, unless it was built.
    pub fn build(&mut self)
        requires
            old(self).ready(),
        ensures
            final(self).is_built,
            final(self).alpha == old(self).alpha,
            final(self).obj_space.payloads() == old(self).obj_space.payloads(),
            old(self).is_built || old(self).obj_space@.live_num == 0 ==> final(self).obj_space@
                == old(self).obj_space@,
            !old(self).is_built && old(self).obj_space@.live_num > 0 ==> rebuilt(
                old(self).obj_space@,
                final(self).obj_space@,
            ) && final(self).obj_space@ == rebuilt_tree(
                old(self).obj_space@,
                old(self).alpha as nat,
            ),
    {
        if self.is_built {
            return ;
        }
        rebuild_obj_space(&mut self.obj_space, self.alpha);
        self.is_built = true;
    }

    /// Whether the tree was built.
    pub fn is_built(&self) -> (r: bool)
        ensures
            r == self.is_built,
    {
        self.is_built
    }
}

} // verus!

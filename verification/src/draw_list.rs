//! The draw-list builder's texture seam.
//!
//! The draw list itself is built from laid-out geometry (floating point) by
//! the platform layer; what the library fixes is the resolver the builder
//! consults to turn an atlas page or an image id into a renderer texture
//! handle, and the builder that owns it.

use vstd::prelude::*;

verus! {

/// A texture resolver: glyph stamp page / image id → renderer texture handle.
pub trait TextureResolver {
    /// Resolve an atlas page to a renderer texture handle.
    fn atlas_page(&self, atlas_id: u32, page_index: u16) -> u32;

    /// Resolve an image id to a renderer texture handle.
    fn image(&self, image_id: u32) -> u32;
}

/// The draw list builder.
pub struct DrawListBuilder<T: TextureResolver> {
    texture: T,
}

impl<T: TextureResolver> DrawListBuilder<T> {
    /// The resolver the builder was created with.
    pub closed spec fn resolver(&self) -> T {
        self.texture
    }

    /// Create a builder with the given texture resolver.
    pub fn new(texture: T) -> (r: Self)
        ensures
            r.resolver() == texture,
    {
        DrawListBuilder { texture }
    }

    /// The builder's texture resolver.
    pub fn texture(&self) -> (r: &T)
        ensures
            *r == self.resolver(),
    {
        &self.texture
    }
}

} // verus!

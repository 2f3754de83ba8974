//! Textures that read their colours from images, and the parity rule of the
//! checker pattern.

use vstd::prelude::*;
use crate::my_image::{first_loadable, ImageFile, MyImage};

verus! {

/// A texture that reads its colour from one image.
pub struct ImageTexture {
    pub image: MyImage,
}

impl ImageTexture {
    /// The texture of the first of the files that holds an image; where
    /// none does, the texture of the missing image.
    pub fn new(files: &Vec<ImageFile>) -> (t: ImageTexture)
        ensures
            t.image@ == first_loadable(files@, 0),
    {
        ImageTexture { image: MyImage::new(files) }
    }
}

/// A texture with a colour image and, optionally, a normal map and an
/// opacity map.
pub struct MappedTexture {
    pub color_map: MyImage,
    pub normal_map: Option<MyImage>,
    pub alpha_map: Option<MyImage>,
}

/// The image that a list of candidate files gives, where there is such a
/// list.
pub open spec fn optional_image(files: Option<&Vec<ImageFile>>) -> Option<
    crate::my_image::ImageView,
> {
    match files {
        Some(f) => Some(first_loadable(f@, 0)),
        None => None,
    }
}

/// The image of an optional map as a value.
pub open spec fn map_view(map: Option<MyImage>) -> Option<crate::my_image::ImageView> {
    match map {
        Some(m) => Some(m@),
        None => None,
    }
}

impl MappedTexture {
    /// The texture whose colour image is the first image among
    /// `color_files`. It has a normal map exactly when `normal_files` is
    /// given, and an opacity map exactly when `alpha_files` is given, each
    /// the first image among its files.
    pub fn new(
        color_files: &Vec<ImageFile>,
        normal_files: Option<&Vec<ImageFile>>,
        alpha_files: Option<&Vec<ImageFile>>,
    ) -> (t: MappedTexture)
        ensures
            t.color_map@ == first_loadable(color_files@, 0),
            map_view(t.normal_map) == optional_image(normal_files),
            map_view(t.alpha_map) == optional_image(alpha_files),
    {
        let color_map = MyImage::new(color_files);
        let normal_map = match normal_files {
            Some(files) => Some(MyImage::new(files)),
            None => None,
        };
        let alpha_map = match alpha_files {
            Some(files) => Some(MyImage::new(files)),
            None => None,
        };
        MappedTexture { color_map, normal_map, alpha_map }
    }
}

/// Whether the checker cell with the given whole-numbered coordinates shows
/// the even texture: it does where the coordinates add up to an even number.
pub fn checker_cell_is_even(x: i32, y: i32, z: i32) -> (even: bool)
    ensures
        even == ((x + y + z) % 2 == 0),
{
    let sum: i64 = x as i64 + y as i64 + z as i64;
    sum % 2 == 0
}

} // verus!

//! The packed texture atlas of a map, and what it takes to admit it.
//!
//! Packing is the host's work. The pipeline takes what the packer returned,
//! holds it against the images that were handed to the packer, and keeps it
//! only if every image got a region of its own size, inside the atlas, that
//! shares no pixel with another region.

use vstd::prelude::*;
use std::collections::HashMap;
use std::collections::HashSet;
use crate::error::ConfigurationError;
use crate::handle::{AtlasHandle, ImageHandle, MapHandle};

verus! {

/// The side the packer starts with when it looks for a canvas that fits.
pub const ATLAS_INITIAL_SIZE: u32 = 2048;

/// The largest width and height that the canvas of an atlas may have.
pub const ATLAS_MAX_SIZE: u32 = 16096;

/// The number of pixels of the largest canvas.
pub open spec fn canvas_capacity() -> int {
    ATLAS_MAX_SIZE * ATLAS_MAX_SIZE
}

/// An image as it was handed to the packer: its handle and its size in
/// pixels.
#[derive(Clone, Copy, Debug, PartialEq, Eq, Structural)]
pub struct PackedImage {
    pub image: ImageHandle,
    pub width: u32,
    pub height: u32,
}

/// The rectangle of an atlas that shows one image. Its pixels are those
/// with `x <= px < x + width` and `y <= py < y + height`.
#[derive(Clone, Copy, Debug, PartialEq, Eq, Structural)]
pub struct AtlasRegion {
    pub image: ImageHandle,
    pub x: u32,
    pub y: u32,
    pub width: u32,
    pub height: u32,
}

/// What the packer returned: the atlas it stored, the size of its canvas,
/// and its regions. The position of a region in `regions` is its index.
#[derive(Debug)]
pub struct PackedAtlas {
    pub texture_atlas: AtlasHandle,
    pub width: u32,
    pub height: u32,
    pub regions: Vec<AtlasRegion>,
}

impl AtlasRegion {
    /// The region holds the pixel `(px, py)`.
    pub open spec fn holds_pixel(&self, px: int, py: int) -> bool {
        &&& self.x <= px < self.x + self.width
        &&& self.y <= py < self.y + self.height
    }

    /// The region lies within a canvas of the given size.
    pub open spec fn inside(&self, width: u32, height: u32) -> bool {
        &&& self.x + self.width <= width
        &&& self.y + self.height <= height
    }

    /// The two regions share a pixel.
    pub open spec fn overlaps(&self, other: AtlasRegion) -> bool {
        exists|px: int, py: int| #[trigger] self.holds_pixel(px, py) && other.holds_pixel(px, py)
    }

    /// Whether the two regions share a pixel.
    pub fn intersects(&self, other: &AtlasRegion) -> (shared: bool)
        ensures
            shared == self.overlaps(*other),
    {
        let left: u64 = if self.x >= other.x { self.x as u64 } else { other.x as u64 };
        let top: u64 = if self.y >= other.y { self.y as u64 } else { other.y as u64 };
        let self_right: u64 = self.x as u64 + self.width as u64;
        let other_right: u64 = other.x as u64 + other.width as u64;
        let self_bottom: u64 = self.y as u64 + self.height as u64;
        let other_bottom: u64 = other.y as u64 + other.height as u64;
        let right: u64 = if self_right <= other_right { self_right } else { other_right };
        let bottom: u64 = if self_bottom <= other_bottom { self_bottom } else { other_bottom };
        let shared = left < right && top < bottom;
        proof {
            if shared {
                assert(self.holds_pixel(left as int, top as int));
            }
        }
        shared
    }
}

/// The pixels of all `images` together.
pub open spec fn total_area(images: Seq<PackedImage>) -> int
    decreases images.len(),
{
    if images.len() == 0 {
        0
    } else {
        total_area(images.drop_last()) + images.last().width * images.last().height
    }
}

/// The index of the region that shows `image`, if there is one.
pub open spec fn region_index(regions: Seq<AtlasRegion>, image: ImageHandle) -> Option<int> {
    if exists|j: int| 0 <= j < regions.len() && (#[trigger] regions[j]).image == image {
        Some(choose|j: int| 0 <= j < regions.len() && (#[trigger] regions[j]).image == image)
    } else {
        None
    }
}

/// No image has two regions.
pub open spec fn regions_distinct(regions: Seq<AtlasRegion>) -> bool {
    forall|i: int, j: int|
        0 <= i < j < regions.len() ==> (#[trigger] regions[i]).image
            != (#[trigger] regions[j]).image
}

/// No two regions share a pixel.
pub open spec fn regions_disjoint(regions: Seq<AtlasRegion>) -> bool {
    forall|i: int, j: int|
        0 <= i < j < regions.len() ==> !(#[trigger] regions[i]).overlaps(#[trigger] regions[j])
}

/// Every region lies within the canvas.
pub open spec fn regions_inside(regions: Seq<AtlasRegion>, width: u32, height: u32) -> bool {
    forall|j: int| 0 <= j < regions.len() ==> (#[trigger] regions[j]).inside(width, height)
}

/// Every image has a region, and that region has the size of the image.
pub open spec fn images_placed(images: Seq<PackedImage>, regions: Seq<AtlasRegion>) -> bool {
    forall|i: int|
        0 <= i < images.len() ==> {
            &&& region_index(regions, (#[trigger] images[i]).image) matches Some(j)
            &&& regions[j].width == images[i].width
            &&& regions[j].height == images[i].height
        }
}

/// `image` is one of `images`.
pub open spec fn is_supplied(images: Seq<PackedImage>, image: ImageHandle) -> bool {
    exists|i: int| 0 <= i < images.len() && (#[trigger] images[i]).image == image
}

/// Every region shows one of the images.
pub open spec fn regions_supplied(images: Seq<PackedImage>, regions: Seq<AtlasRegion>) -> bool {
    forall|j: int| 0 <= j < regions.len() ==> is_supplied(images, (#[trigger] regions[j]).image)
}

/// Where no image has two regions, the index of the image of region `j` is
/// `j`.
pub proof fn lemma_region_index(regions: Seq<AtlasRegion>, j: int)
    requires
        regions_distinct(regions),
        0 <= j < regions.len(),
    ensures
        region_index(regions, regions[j].image) == Some(j),
{
    let image = regions[j].image;
    let k = choose|k: int| 0 <= k < regions.len() && (#[trigger] regions[k]).image == image;
    assert(regions[k].image == regions[j].image);
}

/// The index of an image is the index of a region that shows it, and an
/// image without an index is shown by no region.
pub proof fn lemma_region_index_is_exact(regions: Seq<AtlasRegion>, image: ImageHandle)
    ensures
        region_index(regions, image) matches Some(j) ==> 0 <= j < regions.len() && regions[j].image
            == image,
        region_index(regions, image) is None ==> forall|j: int|
            0 <= j < regions.len() ==> (#[trigger] regions[j]).image != image,
{
}

/// The area of the first `n` images is at most the area of all of them.
pub proof fn lemma_total_area_grows(images: Seq<PackedImage>, n: int)
    requires
        0 <= n <= images.len(),
    ensures
        0 <= total_area(images.take(n)) <= total_area(images),
    decreases images.len() - n,
{
    if n == images.len() {
        assert(images.take(n) == images);
        lemma_total_area_nonnegative(images);
    } else {
        lemma_total_area_grows(images, n + 1);
        assert(images.take(n + 1).drop_last() == images.take(n));
        lemma_total_area_nonnegative(images.take(n));
    }
}

proof fn lemma_total_area_nonnegative(images: Seq<PackedImage>)
    ensures
        0 <= total_area(images),
    decreases images.len(),
{
    if images.len() > 0 {
        lemma_total_area_nonnegative(images.drop_last());
    }
}

/// Whether the pixels of all `images` together fit on the largest canvas.
fn area_fits(images: &Vec<PackedImage>) -> (fits: bool)
    ensures
        fits == (total_area(images@) <= canvas_capacity()),
{
    let capacity: u64 = ATLAS_MAX_SIZE as u64 * ATLAS_MAX_SIZE as u64;
    let mut area: u64 = 0;
    let mut i: usize = 0;
    while i < images.len()
        invariant
            i <= images@.len(),
            capacity == canvas_capacity(),
            area == total_area(images@.take(i as int)),
            area <= capacity,
        decreases images@.len() - i,
    {
        let width: u64 = images[i].width as u64;
        let height: u64 = images[i].height as u64;
        proof {
            assert(images@.take(i + 1).drop_last() == images@.take(i as int));
            assert(width * height <= 0xffff_ffff * 0xffff_ffff) by (nonlinear_arith)
                requires
                    width <= 0xffff_ffff,
                    height <= 0xffff_ffff,
            ;
        }
        let pixels: u64 = width * height;
        if pixels > capacity - area {
            proof {
                lemma_total_area_grows(images@, i + 1);
            }
            return false;
        }
        area = area + pixels;
        i += 1;
    }
    proof {
        assert(images@.take(i as int) == images@);
    }
    true
}

/// `index` sends the id of every image that has a region to the index of
/// that region, and holds nothing else.
spec fn index_matches(index: Map<u128, usize>, regions: Seq<AtlasRegion>) -> bool {
    &&& forall|j: int|
        0 <= j < regions.len() ==> index.contains_key((#[trigger] regions[j]).image.id)
            && index[regions[j].image.id] == j
    &&& forall|k: u128|
        index.contains_key(k) ==> (#[trigger] index[k]) < regions.len()
            && regions[index[k] as int].image.id == k
}

/// Looks each region up under its image. Returns the index if every region
/// lies within the canvas and no image has two regions.
fn index_regions(regions: &Vec<AtlasRegion>, width: u32, height: u32) -> (found: Option<
    HashMap<u128, usize>,
>)
    ensures
        found is Some <==> regions_inside(regions@, width, height) && regions_distinct(regions@),
        found matches Some(index) ==> index_matches(index@, regions@),
{
    let mut index: HashMap<u128, usize> = HashMap::new();
    let mut j: usize = 0;
    while j < regions.len()
        invariant
            j <= regions@.len(),
            regions_inside(regions@.take(j as int), width, height),
            regions_distinct(regions@.take(j as int)),
            index_matches(index@, regions@.take(j as int)),
        decreases regions@.len() - j,
    {
        let region = regions[j];
        if region.x as u64 + region.width as u64 > width as u64 || region.y as u64
            + region.height as u64 > height as u64 {
            return None;
        }
        if index.contains_key(&region.image.id) {
            proof {
                let i = index@[region.image.id] as int;
                assert(regions@[i].image == regions@[j as int].image);
            }
            return None;
        }
        index.insert(region.image.id, j);
        j += 1;
    }
    proof {
        assert(regions@.take(j as int) == regions@);
    }
    Some(index)
}

/// Whether no two regions share a pixel.
fn all_disjoint(regions: &Vec<AtlasRegion>) -> (disjoint: bool)
    ensures
        disjoint == regions_disjoint(regions@),
{
    let mut j: usize = 0;
    while j < regions.len()
        invariant
            j <= regions@.len(),
            forall|a: int, b: int|
                0 <= a < b < j ==> !(#[trigger] regions@[a]).overlaps(#[trigger] regions@[b]),
        decreases regions@.len() - j,
    {
        let mut i: usize = 0;
        while i < j
            invariant
                i <= j < regions@.len(),
                forall|a: int|
                    0 <= a < i ==> !(#[trigger] regions@[a]).overlaps(regions@[j as int]),
            decreases j - i,
        {
            if regions[i].intersects(&regions[j]) {
                return false;
            }
            i += 1;
        }
        j += 1;
    }
    true
}

/// Whether every image has a region of its own size.
fn all_placed(
    images: &Vec<PackedImage>,
    regions: &Vec<AtlasRegion>,
    index: &HashMap<u128, usize>,
) -> (placed: bool)
    requires
        regions_distinct(regions@),
        index_matches(index@, regions@),
    ensures
        placed == images_placed(images@, regions@),
{
    let mut i: usize = 0;
    while i < images.len()
        invariant
            i <= images@.len(),
            regions_distinct(regions@),
            index_matches(index@, regions@),
            images_placed(images@.take(i as int), regions@),
        decreases images@.len() - i,
    {
        let image = images[i];
        match index.get(&image.image.id) {
            Some(found) => {
                let j: usize = *found;
                if regions[j].width != image.width || regions[j].height != image.height {
                    return false;
                }
            },
            None => {
                return false;
            },
        }
        i += 1;
    }
    proof {
        assert(images@.take(i as int) == images@);
    }
    true
}

/// Whether every region shows one of the images.
fn all_supplied(images: &Vec<PackedImage>, regions: &Vec<AtlasRegion>) -> (supplied: bool)
    ensures
        supplied == regions_supplied(images@, regions@),
{
    let mut ids: HashSet<u128> = HashSet::new();
    let mut i: usize = 0;
    while i < images.len()
        invariant
            i <= images@.len(),
            forall|a: int| 0 <= a < i ==> ids@.contains((#[trigger] images@[a]).image.id),
            forall|id: u128|
                ids@.contains(id) ==> is_supplied(images@, ImageHandle { id }),
        decreases images@.len() - i,
    {
        ids.insert(images[i].image.id);
        i += 1;
    }
    let mut j: usize = 0;
    while j < regions.len()
        invariant
            j <= regions@.len(),
            forall|a: int|
                0 <= a < images@.len() ==> ids@.contains((#[trigger] images@[a]).image.id),
            forall|id: u128|
                ids@.contains(id) ==> is_supplied(images@, ImageHandle { id }),
            regions_supplied(images@, regions@.take(j as int)),
        decreases regions@.len() - j,
    {
        if !ids.contains(&regions[j].image.id) {
            return false;
        }
        j += 1;
    }
    proof {
        assert(regions@.take(j as int) == regions@);
    }
    true
}

/// What an atlas shows: the map it belongs to, the stored atlas, the size of
/// its canvas, and its regions by index.
pub struct AtlasView {
    pub tilemap: MapHandle,
    pub texture_atlas: AtlasHandle,
    pub width: u32,
    pub height: u32,
    pub regions: Seq<AtlasRegion>,
}

impl AtlasView {
    /// Every region lies within the canvas, no image has two regions, and no
    /// two regions share a pixel.
    pub open spec fn well_formed(self) -> bool {
        &&& regions_inside(self.regions, self.width, self.height)
        &&& regions_distinct(self.regions)
        &&& regions_disjoint(self.regions)
    }

    /// The index of the region that shows `image`, if there is one.
    pub open spec fn region_index(self, image: ImageHandle) -> Option<int> {
        region_index(self.regions, image)
    }
}

/// The packer's answer is kept: it returned an atlas, the images fit on the
/// largest canvas, the atlas is no larger than that canvas, its regions lie
/// within it and share no pixel, and the regions are those of the images, one
/// for each, of the image's size.
pub open spec fn packing_accepted(images: Seq<PackedImage>, packed: Option<PackedAtlas>) -> bool {
    &&& packed matches Some(p)
    &&& total_area(images) <= canvas_capacity()
    &&& p.width <= ATLAS_MAX_SIZE
    &&& p.height <= ATLAS_MAX_SIZE
    &&& regions_inside(p.regions@, p.width, p.height)
    &&& regions_distinct(p.regions@)
    &&& regions_disjoint(p.regions@)
    &&& images_placed(images, p.regions@)
    &&& regions_supplied(images, p.regions@)
}

/// What was packed is found again. In an atlas that was admitted for
/// `images`, the lookup of each of the images gives the index of a region
/// that shows this image, has its size and lies within the canvas.
pub proof fn lemma_round_trip(images: Seq<PackedImage>, packed: PackedAtlas, i: int)
    requires
        packing_accepted(images, Some(packed)),
        0 <= i < images.len(),
    ensures
        region_index(packed.regions@, images[i].image) matches Some(j) && {
            &&& 0 <= j < packed.regions@.len()
            &&& packed.regions@[j].image == images[i].image
            &&& packed.regions@[j].width == images[i].width
            &&& packed.regions@[j].height == images[i].height
            &&& packed.regions@[j].inside(packed.width, packed.height)
        },
{
}

/// No pixel is shown twice: in a well-formed atlas a pixel belongs to at
/// most one region.
pub proof fn lemma_one_region_per_pixel(atlas: AtlasView, j: int, k: int, px: int, py: int)
    requires
        atlas.well_formed(),
        0 <= j < atlas.regions.len(),
        0 <= k < atlas.regions.len(),
        atlas.regions[j].holds_pixel(px, py),
        atlas.regions[k].holds_pixel(px, py),
    ensures
        j == k,
{
}

/// Every region of an admitted atlas shows one of the images that were
/// packed, and the image is found under the index of that region.
pub proof fn lemma_regions_are_images(images: Seq<PackedImage>, packed: PackedAtlas, j: int)
    requires
        packing_accepted(images, Some(packed)),
        0 <= j < packed.regions@.len(),
    ensures
        is_supplied(images, packed.regions@[j].image),
        region_index(packed.regions@, packed.regions@[j].image) == Some(j),
{
}

/// The packed atlas of one map. Once built it never changes.
#[derive(Debug)]
pub struct LoadedTileMap {
    tilemap: MapHandle,
    texture_atlas: AtlasHandle,
    width: u32,
    height: u32,
    regions: Vec<AtlasRegion>,
    index: HashMap<u128, usize>,
}

impl View for LoadedTileMap {
    type V = AtlasView;

    closed spec fn view(&self) -> AtlasView {
        AtlasView {
            tilemap: self.tilemap,
            texture_atlas: self.texture_atlas,
            width: self.width,
            height: self.height,
            regions: self.regions@,
        }
    }
}

impl LoadedTileMap {
    #[verifier::type_invariant]
    spec fn inv(self) -> bool {
        &&& self@.well_formed()
        &&& index_matches(self.index@, self.regions@)
    }

    /// Admits what the packer returned for the images of `tilemap`, or
    /// rejects it. `images` are the images that were handed to the packer,
    /// `packed` is its answer, `None` where it found no room.
    pub fn build(
        tilemap: MapHandle,
        images: &Vec<PackedImage>,
        packed: Option<PackedAtlas>,
    ) -> (result: Result<LoadedTileMap, ConfigurationError>)
        ensures
            result is Ok <==> packing_accepted(images@, packed),
            total_area(images@) > canvas_capacity() ==> result is Err,
            result matches Ok(atlas) ==> atlas@.well_formed() && atlas@ == (AtlasView {
                tilemap,
                texture_atlas: packed->0.texture_atlas,
                width: packed->0.width,
                height: packed->0.height,
                regions: packed->0.regions@,
            }),
            result matches Err(error) ==> error == (ConfigurationError::AtlasCapacityExceeded {
                tilemap,
            }),
    {
        let packed = match packed {
            Some(packed) => packed,
            None => {
                return Err(ConfigurationError::AtlasCapacityExceeded { tilemap });
            },
        };
        if !area_fits(images) || packed.width > ATLAS_MAX_SIZE || packed.height > ATLAS_MAX_SIZE {
            return Err(ConfigurationError::AtlasCapacityExceeded { tilemap });
        }
        let index = match index_regions(&packed.regions, packed.width, packed.height) {
            Some(index) => index,
            None => {
                return Err(ConfigurationError::AtlasCapacityExceeded { tilemap });
            },
        };
        if !all_disjoint(&packed.regions) || !all_placed(images, &packed.regions, &index)
            || !all_supplied(images, &packed.regions) {
            return Err(ConfigurationError::AtlasCapacityExceeded { tilemap });
        }
        Ok(
            LoadedTileMap {
                tilemap,
                texture_atlas: packed.texture_atlas,
                width: packed.width,
                height: packed.height,
                regions: packed.regions,
                index,
            },
        )
    }

    /// The map whose images the atlas holds.
    pub fn tilemap(&self) -> (tilemap: MapHandle)
        ensures
            tilemap == self@.tilemap,
    {
        self.tilemap
    }

    /// The stored atlas.
    pub fn texture_atlas(&self) -> (texture_atlas: AtlasHandle)
        ensures
            texture_atlas == self@.texture_atlas,
    {
        self.texture_atlas
    }

    /// The width of the canvas.
    pub fn width(&self) -> (width: u32)
        ensures
            width == self@.width,
    {
        self.width
    }

    /// The height of the canvas.
    pub fn height(&self) -> (height: u32)
        ensures
            height == self@.height,
    {
        self.height
    }

    /// The number of regions.
    pub fn len(&self) -> (len: usize)
        ensures
            len == self@.regions.len(),
    {
        self.regions.len()
    }

    /// The index of the region that shows `image`, or `None` if the atlas
    /// does not show it.
    pub fn get_texture_index(&self, image: ImageHandle) -> (found: Option<usize>)
        ensures
            self@.well_formed(),
            found matches Some(j) ==> self@.region_index(image) == Some(j as int) && j
                < self@.regions.len() && self@.regions[j as int].image == image,
            found is None ==> self@.region_index(image) is None,
    {
        proof {
            use_type_invariant(self);
        }
        match self.index.get(&image.id) {
            Some(found) => Some(*found),
            None => None,
        }
    }

    /// The region with the given index, or `None` if there is no such
    /// region.
    pub fn region(&self, index: usize) -> (region: Option<AtlasRegion>)
        ensures
            self@.well_formed(),
            region == (if index < self@.regions.len() {
                Some(self@.regions[index as int])
            } else {
                None
            }),
    {
        proof {
            use_type_invariant(self);
        }
        if index < self.regions.len() {
            Some(self.regions[index])
        } else {
            None
        }
    }
}

} // verus!

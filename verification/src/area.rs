//! Why an atlas in order has room for what it shows.
//!
//! The pixels of a canvas are numbered row by row. A region that lies within
//! the canvas owns as many numbers as it has pixels, regions that share no
//! pixel share no number, and the canvas has no more numbers than pixels.

use vstd::prelude::*;
use vstd::arithmetic::div_mod::{
    lemma_fundamental_div_mod, lemma_fundamental_div_mod_converse, lemma_mod_pos_bound,
};
use vstd::set_lib::{lemma_int_range, lemma_len_subset, lemma_set_disjoint_lens, set_int_range};
use crate::atlas::{
    canvas_capacity, images_placed, lemma_region_index, lemma_region_index_is_exact,
    packing_accepted, region_index, regions_disjoint, regions_distinct, regions_inside,
    total_area, AtlasRegion, PackedAtlas, PackedImage, ATLAS_MAX_SIZE,
};

verus! {

/// The pixels of all `regions` together.
pub open spec fn regions_area(regions: Seq<AtlasRegion>) -> int
    decreases regions.len(),
{
    if regions.len() == 0 {
        0
    } else {
        regions_area(regions.drop_last()) + regions.last().width * regions.last().height
    }
}

/// The numbers of the pixels in the first `rows` rows of `region`, on a
/// canvas that is `width` wide.
spec fn numbers(region: AtlasRegion, width: int, rows: int) -> Set<int> {
    Set::new(
        |p: int|
            {
                &&& 0 <= p
                &&& region.x <= p % width < region.x + region.width
                &&& region.y <= p / width < region.y + rows
            },
    )
}

/// The numbers of the pixels of all `regions`.
spec fn all_numbers(regions: Seq<AtlasRegion>, width: int) -> Set<int>
    decreases regions.len(),
{
    if regions.len() == 0 {
        Set::empty()
    } else {
        all_numbers(regions.drop_last(), width) + numbers(
            regions.last(),
            width,
            regions.last().height as int,
        )
    }
}

/// Row `row` of a region is a range of numbers, as long as the region is
/// wide, and apart from the rows above it.
proof fn lemma_row(region: AtlasRegion, width: int, row: int)
    requires
        0 <= row,
        region.x + region.width <= width,
    ensures
        numbers(region, width, row + 1) == numbers(region, width, row) + set_int_range(
            (region.y + row) * width + region.x,
            (region.y + row) * width + region.x + region.width,
        ),
        numbers(region, width, row).disjoint(
            set_int_range(
                (region.y + row) * width + region.x,
                (region.y + row) * width + region.x + region.width,
            ),
        ),
{
    let y = region.y + row;
    let low = y * width + region.x;
    let range = set_int_range(low, low + region.width);
    let above = numbers(region, width, row);
    let below = numbers(region, width, row + 1);
    assert forall|p: int| range.contains(p) implies p >= 0 && p / width == y && p % width == p
        - y * width by {
        lemma_fundamental_div_mod_converse(p, width, y, p - y * width);
        assert(y * width >= 0) by (nonlinear_arith)
            requires
                y >= 0,
                width >= 0,
        ;
    }
    assert forall|p: int| below.contains(p) && p / width == y implies range.contains(p) by {
        lemma_fundamental_div_mod(p, width);
        assert(width * y == y * width) by (nonlinear_arith);
    }
    assert(below =~= above + range);
    assert(above.disjoint(range));
}

/// The first `rows` rows of a region own one number for each of their
/// pixels.
proof fn lemma_numbers_len(region: AtlasRegion, width: int, rows: int)
    requires
        0 <= rows,
        region.x + region.width <= width,
    ensures
        numbers(region, width, rows).finite(),
        numbers(region, width, rows).len() == rows * region.width,
    decreases rows,
{
    if rows == 0 {
        assert(numbers(region, width, 0) =~= Set::empty());
    } else {
        let row = rows - 1;
        let low = (region.y + row) * width + region.x;
        lemma_numbers_len(region, width, row);
        lemma_row(region, width, row);
        lemma_int_range(low, low + region.width);
        lemma_set_disjoint_lens(
            numbers(region, width, row),
            set_int_range(low, low + region.width),
        );
        assert(rows * region.width == row * region.width + region.width) by (nonlinear_arith)
            requires
                rows == row + 1,
        ;
    }
}

/// Every number belongs to a pixel of one of the regions.
proof fn lemma_numbers_are_pixels(regions: Seq<AtlasRegion>, width: int, p: int)
    requires
        all_numbers(regions, width).contains(p),
    ensures
        0 <= p,
        exists|j: int|
            0 <= j < regions.len() && (#[trigger] regions[j]).holds_pixel(p % width, p / width),
    decreases regions.len(),
{
    if regions.len() > 0 {
        let front = regions.drop_last();
        if all_numbers(front, width).contains(p) {
            lemma_numbers_are_pixels(front, width, p);
            let j = choose|j: int|
                0 <= j < front.len() && (#[trigger] front[j]).holds_pixel(p % width, p / width);
            assert(regions[j].holds_pixel(p % width, p / width));
        } else {
            assert(regions[regions.len() - 1].holds_pixel(p % width, p / width));
        }
    }
}

/// Regions within a canvas that share no pixel own one number for each of
/// their pixels, and every number is one of the canvas.
proof fn lemma_all_numbers_len(regions: Seq<AtlasRegion>, width: u32, height: u32)
    requires
        0 < width,
        regions_inside(regions, width, height),
        regions_disjoint(regions),
    ensures
        all_numbers(regions, width as int).subset_of(set_int_range(0, width * height)),
        all_numbers(regions, width as int).finite(),
        all_numbers(regions, width as int).len() == regions_area(regions),
    decreases regions.len(),
{
    let canvas = set_int_range(0, width * height);
    assert(0 <= width * height) by (nonlinear_arith);
    lemma_int_range(0, width * height);
    if regions.len() > 0 {
        let front = regions.drop_last();
        let last = regions.last();
        let m = regions.len() - 1;
        assert(regions[m].inside(width, height));
        assert forall|j: int| 0 <= j < front.len() implies (#[trigger] front[j]).inside(
            width,
            height,
        ) by {
            assert(regions[j].inside(width, height));
        }
        assert forall|i: int, j: int| 0 <= i < j < front.len() implies
            !(#[trigger] front[i]).overlaps(#[trigger] front[j]) by {
            assert(!regions[i].overlaps(regions[j]));
        }
        lemma_all_numbers_len(front, width, height);
        let before = all_numbers(front, width as int);
        let own = numbers(last, width as int, last.height as int);
        lemma_numbers_len(last, width as int, last.height as int);
        assert forall|p: int| own.contains(p) implies canvas.contains(p) by {
            lemma_fundamental_div_mod(p, width as int);
            lemma_mod_pos_bound(p, width as int);
            let row = p / (width as int);
            assert(width * row + width <= width * height) by (nonlinear_arith)
                requires
                    row + 1 <= height,
                    0 < width,
            ;
        }
        assert forall|p: int| before.contains(p) implies !own.contains(p) by {
            if own.contains(p) {
                lemma_numbers_are_pixels(front, width as int, p);
                let j = choose|j: int|
                    0 <= j < front.len() && (#[trigger] front[j]).holds_pixel(
                        p % (width as int),
                        p / (width as int),
                    );
                assert(last.holds_pixel(p % (width as int), p / (width as int)));
                assert(regions[j].overlaps(regions[m]));
            }
        }
        assert(before.disjoint(own));
        lemma_set_disjoint_lens(before, own);
        assert((before + own).subset_of(canvas));
        assert(last.height * last.width == last.width * last.height) by (nonlinear_arith);
    }
}

/// An atlas in order has room for what it shows: regions that lie within a
/// canvas and share no pixel have together no more pixels than the canvas.
pub proof fn lemma_regions_fit(regions: Seq<AtlasRegion>, width: u32, height: u32)
    requires
        regions_inside(regions, width, height),
        regions_disjoint(regions),
    ensures
        0 <= regions_area(regions) <= width * height,
{
    if width == 0 {
        lemma_flat_regions(regions);
        assert(width * height == 0) by (nonlinear_arith)
            requires
                width == 0,
        ;
    } else {
        lemma_all_numbers_len(regions, width, height);
        assert(0 <= width * height) by (nonlinear_arith);
        lemma_int_range(0, width * height);
        lemma_len_subset(all_numbers(regions, width as int), set_int_range(0, width * height));
    }
}

/// Regions on a canvas without width have no pixels.
proof fn lemma_flat_regions(regions: Seq<AtlasRegion>)
    requires
        forall|j: int| 0 <= j < regions.len() ==> (#[trigger] regions[j]).width == 0,
    ensures
        regions_area(regions) == 0,
    decreases regions.len(),
{
    if regions.len() > 0 {
        let front = regions.drop_last();
        assert forall|j: int| 0 <= j < front.len() implies (#[trigger] front[j]).width == 0 by {
            assert(regions[j].width == 0);
        }
        lemma_flat_regions(front);
        assert(regions[regions.len() - 1].width == 0);
        assert(0 * regions.last().height == 0);
    }
}

/// No two of the images are the same image.
pub open spec fn images_differ(images: Seq<PackedImage>) -> bool {
    forall|a: int, b: int|
        0 <= a < b < images.len() ==> (#[trigger] images[a]).image != (#[trigger] images[b]).image
}

/// Taking one image away takes its pixels away.
proof fn lemma_total_area_remove(images: Seq<PackedImage>, i: int)
    requires
        0 <= i < images.len(),
    ensures
        total_area(images) == total_area(images.remove(i)) + images[i].width * images[i].height,
    decreases images.len(),
{
    let last = images.len() - 1;
    if i == last {
        assert(images.remove(i) == images.drop_last());
    } else {
        lemma_total_area_remove(images.drop_last(), i);
        assert(images.remove(i).drop_last() == images.drop_last().remove(i));
        assert(images.remove(i).last() == images.last());
        assert(images.drop_last()[i] == images[i]);
    }
}

/// Images that are pairwise different and have each a region of their own
/// size have together no more pixels than the regions.
proof fn lemma_images_within_regions(images: Seq<PackedImage>, regions: Seq<AtlasRegion>)
    requires
        images_differ(images),
        regions_distinct(regions),
        images_placed(images, regions),
    ensures
        total_area(images) <= regions_area(regions),
    decreases regions.len(),
{
    if regions.len() == 0 {
        if images.len() > 0 {
            lemma_region_index_is_exact(regions, images[0].image);
        }
    } else {
        let front = regions.drop_last();
        let last = regions.last();
        let m = regions.len() - 1;
        assert(last.width * last.height >= 0) by (nonlinear_arith);
        assert forall|i: int, j: int| 0 <= i < j < front.len() implies (#[trigger] front[i]).image
            != (#[trigger] front[j]).image by {
            assert(regions[i].image != regions[j].image);
        }
        let shown = exists|i: int|
            0 <= i < images.len() && (#[trigger] images[i]).image == last.image;
        let i = choose|i: int|
            0 <= i < images.len() && (#[trigger] images[i]).image == last.image;
        let rest = if shown {
            images.remove(i)
        } else {
            images
        };
        assert forall|a: int, b: int| 0 <= a < b < rest.len() implies (#[trigger] rest[a]).image
            != (#[trigger] rest[b]).image by {
            let a0 = if shown && a >= i {
                a + 1
            } else {
                a
            };
            let b0 = if shown && b >= i {
                b + 1
            } else {
                b
            };
            assert(rest[a] == images[a0] && rest[b] == images[b0]);
            assert(images[a0].image != images[b0].image);
        }
        assert forall|a: int| 0 <= a < rest.len() implies {
            &&& region_index(front, (#[trigger] rest[a]).image) matches Some(j)
            &&& front[j].width == rest[a].width
            &&& front[j].height == rest[a].height
        } by {
            let a0 = if shown && a >= i {
                a + 1
            } else {
                a
            };
            assert(rest[a] == images[a0]);
            lemma_region_index_is_exact(regions, images[a0].image);
            let j = region_index(regions, images[a0].image)->0;
            if j == m {
                if a0 < i {
                    assert(images[a0].image != images[i].image);
                } else if i < a0 {
                    assert(images[i].image != images[a0].image);
                }
            }
            assert(front[j] == regions[j]);
            lemma_region_index(front, j);
        }
        lemma_images_within_regions(rest, front);
        if shown {
            lemma_total_area_remove(images, i);
            lemma_region_index(regions, m);
            assert(images[i].width == last.width && images[i].height == last.height);
        }
    }
}

/// The count of pixels refuses no packing that is in order. Where the
/// images are pairwise different, each has a region of its own size, and the
/// regions lie within the canvas and share no pixel, the images have
/// together no more pixels than the canvas; on a canvas that is no larger
/// than the largest, they fit on the largest.
pub proof fn lemma_packing_has_room(images: Seq<PackedImage>, packed: PackedAtlas)
    requires
        images_differ(images),
        regions_inside(packed.regions@, packed.width, packed.height),
        regions_distinct(packed.regions@),
        regions_disjoint(packed.regions@),
        images_placed(images, packed.regions@),
    ensures
        total_area(images) <= packed.width * packed.height,
        packed.width <= ATLAS_MAX_SIZE && packed.height <= ATLAS_MAX_SIZE ==> total_area(images)
            <= canvas_capacity(),
{
    lemma_images_within_regions(images, packed.regions@);
    lemma_regions_fit(packed.regions@, packed.width, packed.height);
    if packed.width <= ATLAS_MAX_SIZE && packed.height <= ATLAS_MAX_SIZE {
        assert(packed.width * packed.height <= ATLAS_MAX_SIZE * ATLAS_MAX_SIZE)
            by (nonlinear_arith)
            requires
                0 <= packed.width <= ATLAS_MAX_SIZE,
                0 <= packed.height <= ATLAS_MAX_SIZE,
        ;
    }
}

/// An admitted atlas has room for what it shows: its regions have together
/// no more pixels than its canvas.
pub proof fn lemma_admitted_atlas_has_room(images: Seq<PackedImage>, packed: PackedAtlas)
    requires
        packing_accepted(images, Some(packed)),
    ensures
        regions_area(packed.regions@) <= packed.width * packed.height,
        packed.width * packed.height <= canvas_capacity(),
{
    lemma_regions_fit(packed.regions@, packed.width, packed.height);
    assert(packed.width * packed.height <= ATLAS_MAX_SIZE * ATLAS_MAX_SIZE) by (nonlinear_arith)
        requires
            0 <= packed.width <= ATLAS_MAX_SIZE,
            0 <= packed.height <= ATLAS_MAX_SIZE,
    ;
}

} // verus!

//! Rasterisation of per-class position lists into one colour image per slice,
//! for inspection.
use crate::intensity::points_of;
use crate::point::{Data, Point};
use image::{Rgb, RgbImage};
use vstd::prelude::*;

verus! {

/// An RGB image of `image`, held opaquely: Verus does not accept a declaration
/// of `image::ImageBuffer`, whose parameter is bound by an outside trait.
#[verifier::external_body]
pub struct SliceImage {
    pub image: RgbImage,
}

/// The colour of each pixel of an image, by `(x, y)`; its domain is the
/// image's extent.
pub uninterp spec fn pixels_of(img: SliceImage) -> Map<(u32, u32), (u8, u8, u8)>;

/// Relies on `image::ImageBuffer::new`: a `w × h` image with every channel
/// zero (black). It panics when `3 * w * h` overflows or exceeds what a vector
/// can hold, which `requires` leaves out.
#[verifier::external_body]
fn new_image(w: u32, h: u32) -> (r: SliceImage)
    requires
        3 * (w as int) * (h as int) <= isize::MAX,
    ensures
        pixels_of(r) == Map::new(|xy: (u32, u32)| xy.0 < w && xy.1 < h, |xy: (u32, u32)| (0u8, 0u8, 0u8)),
{
    SliceImage { image: RgbImage::new(w, h) }
}

/// Relies on `image::ImageBuffer::put_pixel`: sets the pixel at `(x, y)` and
/// nothing else. It panics outside the extent, which `requires` leaves out.
#[verifier::external_body]
fn put_pixel(img: &mut SliceImage, x: u32, y: u32, color: (u8, u8, u8))
    requires
        pixels_of(*old(img)).dom().contains((x, y)),
    ensures
        pixels_of(*final(img)) == pixels_of(*old(img)).insert((x, y), color),
{
    img.image.put_pixel(x, y, Rgb([color.0, color.1, color.2]))
}

/// The colour of class `i`: green, blue, cyan, magenta, yellow, then red for
/// every further class.
pub open spec fn class_color_spec(i: int) -> (u8, u8, u8) {
    if i == 0 {
        (0, 255, 0)
    } else if i == 1 {
        (0, 0, 255)
    } else if i == 2 {
        (0, 255, 255)
    } else if i == 3 {
        (255, 0, 255)
    } else if i == 4 {
        (255, 255, 0)
    } else {
        (255, 0, 0)
    }
}

pub fn class_color(i: usize) -> (r: (u8, u8, u8))
    ensures
        r == class_color_spec(i as int),
{
    if i == 0 {
        (0, 255, 0)
    } else if i == 1 {
        (0, 0, 255)
    } else if i == 2 {
        (0, 255, 255)
    } else if i == 3 {
        (255, 0, 255)
    } else if i == 4 {
        (255, 255, 0)
    } else {
        (255, 0, 0)
    }
}

/// Some point of the list lies at `(x, y)`, at any depth.
pub open spec fn hits(list: Seq<Point>, x: u32, y: u32) -> bool {
    exists|k: int| 0 <= k < list.len() && (#[trigger] list[k]).x == x && list[k].y == y
}

/// The colour of pixel `(x, y)` after the lists were drawn in order: that of
/// the last class with a point there, else black.
pub open spec fn drawn_color(lists: Seq<Seq<Point>>, x: u32, y: u32) -> (u8, u8, u8)
    decreases lists.len(),
{
    if lists.len() == 0 {
        (0, 0, 0)
    } else if hits(lists.last(), x, y) {
        class_color_spec(lists.len() - 1)
    } else {
        drawn_color(lists.drop_last(), x, y)
    }
}

/// Every point of every list lies in the `w × h` extent.
pub open spec fn lists_in_image(lists: Seq<Seq<Point>>, w: u32, h: u32) -> bool {
    forall|n: int, k: int| 0 <= n < lists.len() && 0 <= k < lists[n].len() ==> (#[trigger] lists[n][k]).x < w && lists[n][k].y < h
}

/// Draws each class's points in its colour on a black `w × h` image; where
/// classes overlap, the later class shows.
pub fn point_to_img(w: u32, h: u32, point_lst: &[Vec<Point>]) -> (r: SliceImage)
    requires
        3 * (w as int) * (h as int) <= isize::MAX,
        lists_in_image(Seq::new(point_lst@.len(), |n: int| point_lst@[n]@), w, h),
    ensures
        pixels_of(r) == Map::new(
            |xy: (u32, u32)| xy.0 < w && xy.1 < h,
            |xy: (u32, u32)| drawn_color(Seq::new(point_lst@.len(), |n: int| point_lst@[n]@), xy.0, xy.1),
        ),
{
    let ghost lists = Seq::new(point_lst@.len(), |n: int| point_lst@[n]@);
    let mut img = new_image(w, h);
    for i in 0..point_lst.len()
        invariant
            lists == Seq::new(point_lst@.len(), |n: int| point_lst@[n]@),
            lists_in_image(lists, w, h),
            pixels_of(img) == Map::new(
                |xy: (u32, u32)| xy.0 < w && xy.1 < h,
                |xy: (u32, u32)| drawn_color(lists.take(i as int), xy.0, xy.1),
            ),
    {
        let color = class_color(i);
        let list = &point_lst[i];
        assert(lists.take(i + 1).drop_last() =~= lists.take(i as int));
        for k in 0..list.len()
            invariant
                lists == Seq::new(point_lst@.len(), |n: int| point_lst@[n]@),
                lists_in_image(lists, w, h),
                0 <= i < lists.len(),
                list@ == lists[i as int],
                color == class_color_spec(i as int),
                lists.take(i + 1).drop_last() == lists.take(i as int),
                pixels_of(img) == Map::new(
                    |xy: (u32, u32)| xy.0 < w && xy.1 < h,
                    |xy: (u32, u32)|
                        if hits(list@.take(k as int), xy.0, xy.1) {
                            color
                        } else {
                            drawn_color(lists.take(i as int), xy.0, xy.1)
                        },
                ),
        {
            let p = list[k];
            assert(lists[i as int][k as int] == p);
            put_pixel(&mut img, p.x as u32, p.y as u32, color);
            proof {
                let before = list@.take(k as int);
                let after = list@.take(k + 1);
                assert(after =~= before.push(p));
                assert forall|x: u32, y: u32| hits(after, x, y) <==> hits(before, x, y) || (x == p.x && y == p.y) by {
                    if hits(after, x, y) {
                        let j = choose|j: int| 0 <= j < after.len() && (#[trigger] after[j]).x == x && after[j].y == y;
                        if j < before.len() {
                            assert(before[j] == after[j]);
                        }
                    }
                    if hits(before, x, y) {
                        let j = choose|j: int| 0 <= j < before.len() && (#[trigger] before[j]).x == x && before[j].y == y;
                        assert(after[j] == before[j]);
                    }
                    if x == p.x && y == p.y {
                        assert(after[k as int] == p);
                    }
                }
                assert(pixels_of(img) =~= Map::new(
                    |xy: (u32, u32)| xy.0 < w && xy.1 < h,
                    |xy: (u32, u32)|
                        if hits(after, xy.0, xy.1) {
                            color
                        } else {
                            drawn_color(lists.take(i as int), xy.0, xy.1)
                        },
                ));
            }
        }
        proof {
            assert(list@.take(list@.len() as int) =~= list@);
            assert(lists.take(i + 1).last() == list@);
            assert(pixels_of(img) =~= Map::new(
                |xy: (u32, u32)| xy.0 < w && xy.1 < h,
                |xy: (u32, u32)| drawn_color(lists.take(i + 1), xy.0, xy.1),
            ));
        }
    }
    assert(lists.take(point_lst@.len() as int) =~= lists);
    img
}

/// As `point_to_img`, with the samples' positions.
pub fn data_to_img(w: u32, h: u32, data_lst: &[Vec<Data>]) -> (r: SliceImage)
    requires
        3 * (w as int) * (h as int) <= isize::MAX,
        lists_in_image(Seq::new(data_lst@.len(), |n: int| data_lst@[n]@.map_values(|d: Data| d.point)), w, h),
    ensures
        pixels_of(r) == Map::new(
            |xy: (u32, u32)| xy.0 < w && xy.1 < h,
            |xy: (u32, u32)|
                drawn_color(Seq::new(data_lst@.len(), |n: int| data_lst@[n]@.map_values(|d: Data| d.point)), xy.0, xy.1),
        ),
{
    let mut groups: Vec<Vec<Data>> = Vec::new();
    for i in 0..data_lst.len()
        invariant
            groups@.len() == i,
            forall|n: int| 0 <= n < i ==> (#[trigger] groups@[n])@ == data_lst@[n]@,
    {
        groups.push(copy_data(&data_lst[i]));
    }
    let points = points_of(&groups);
    assert(Seq::new(points@.len(), |n: int| points@[n]@) =~= Seq::new(
        data_lst@.len(),
        |n: int| data_lst@[n]@.map_values(|d: Data| d.point),
    ));
    point_to_img(w, h, points.as_slice())
}

fn copy_data(s: &Vec<Data>) -> (r: Vec<Data>)
    ensures
        r@ == s@,
{
    let mut r: Vec<Data> = Vec::new();
    for i in 0..s.len()
        invariant
            r@ == s@.take(i as int),
    {
        assert(s@.take(i + 1) =~= s@.take(i as int).push(s@[i as int]));
        r.push(s[i]);
    }
    assert(s@.take(s@.len() as int) =~= s@);
    r
}

} // verus!

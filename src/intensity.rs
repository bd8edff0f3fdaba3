//! The clustering policies of this domain: distance, centroid and convergence
//! over sample intensities, and the preparation of samples and centroids.
use crate::point::{Center, Data, Point};
use vstd::prelude::*;

verus! {

/// `|a - b|` of the two intensities after widening each to `usize` the way
/// `as` does (a negative intensity sign-extends to a value near `usize::MAX`).
pub open spec fn distance_of(a: i16, b: i16) -> int {
    let (u, v) = (a as usize as int, b as usize as int);
    if u >= v {
        u - v
    } else {
        v - u
    }
}

pub open spec fn intensity_sum(s: Seq<Data>) -> int
    decreases s.len(),
{
    if s.len() == 0 {
        0
    } else {
        intensity_sum(s.drop_last()) + s.last().data
    }
}

/// `sum / n` rounded toward zero.
pub open spec fn quotient_toward_zero(sum: int, n: int) -> int {
    if sum >= 0 {
        sum / n
    } else {
        -((-sum) / n)
    }
}

/// The mean intensity of a non-empty list, rounded toward zero.
pub open spec fn mean_intensity(s: Seq<Data>) -> int {
    quotient_toward_zero(intensity_sum(s), s.len() as int)
}

/// The distance between a centroid and a sample (see `distance_of`).
pub fn calc_distance(center: &Center, data: &Data) -> (r: usize)
    ensures
        r == distance_of(center.data, data.data),
{
    let a = center.data as usize;
    let b = data.data as usize;
    if a >= b {
        a - b
    } else {
        b - a
    }
}

/// The centroid of a group: its mean intensity rounded toward zero, with no
/// position; `None` for an empty group.
pub fn calc_center(lst: &[Data]) -> (r: Option<Center>)
    ensures
        lst@.len() == 0 <==> r is None,
        r matches Some(c) ==> c.point is None && c.data == mean_intensity(lst@),
{
    let len = lst.len();
    if len == 0 {
        return None;
    }
    let mut sum: i128 = 0;
    for i in 0..len
        invariant
            len == lst@.len(),
            sum == intensity_sum(lst@.take(i as int)),
            -0x8000 * i <= sum <= 0x7fff * i,
    {
        assert(lst@.take(i + 1).drop_last() =~= lst@.take(i as int));
        assert(-0x8000 * (i + 1) <= sum + lst[i as int].data <= 0x7fff * (i + 1)) by (nonlinear_arith)
            requires
                -0x8000 * i <= sum <= 0x7fff * i,
                -0x8000 <= lst[i as int].data <= 0x7fff,
        ;
        sum = sum + lst[i].data as i128;
    }
    assert(lst@.take(len as int) =~= lst@);
    let n = len as i128;
    let mean: i128 = if sum >= 0 {
        sum / n
    } else {
        -((-sum) / n)
    };
    assert(-0x8000 <= mean <= 0x7fff) by {
        if sum >= 0 {
            let (s1, n1) = (sum as int, n as int);
            assert(s1 / n1 <= 0x7fff) by (nonlinear_arith)
                requires
                    0 <= s1 <= 0x7fff * n1,
                    n1 > 0,
            ;
        } else {
            let (s1, n1) = (-(sum as int), n as int);
            assert(s1 / n1 <= 0x8000) by (nonlinear_arith)
                requires
                    0 <= s1 <= 0x8000 * n1,
                    n1 > 0,
            ;
        }
    }
    Some(Center { point: None, data: mean as i16 })
}

/// Two groups agree when both are empty, or both are non-empty with the same
/// centroid intensity.
pub fn calc_eq(lst1: &[Data], lst2: &[Data]) -> (r: bool)
    ensures
        r == ((lst1@.len() == 0 && lst2@.len() == 0) || (lst1@.len() > 0 && lst2@.len() > 0 && mean_intensity(lst1@)
            == mean_intensity(lst2@))),
{
    let center_1 = calc_center(lst1);
    let center_2 = calc_center(lst2);
    match (center_1, center_2) {
        (Some(d1), Some(d2)) => d1.data == d2.data,
        (None, None) => true,
        _ => false,
    }
}

/// The intensity given to samples outside the analysed box (air).
pub const OUTSIDE_INTENSITY: i16 = -1000;

/// The centroids used when the caller gives none: background, lung tissue,
/// fat, vessel and bone.
pub fn default_centers() -> (r: Vec<Center>)
    ensures
        r@.len() == 5,
        r@[0].data == -990 && r@[1].data == -750 && r@[2].data == -53 && r@[3].data == 34 && r@[4].data == 300,
        forall|i: int| 0 <= i < 5 ==> (#[trigger] r@[i]).point is None,
{
    let mut v: Vec<Center> = Vec::new();
    v.push(Center { point: None, data: -990 });
    v.push(Center { point: None, data: -750 });
    v.push(Center { point: None, data: -53 });
    v.push(Center { point: None, data: 34 });
    v.push(Center { point: None, data: 300 });
    v
}

/// One centroid per given intensity, in order.
pub fn centers_from(colors: &[i16]) -> (r: Vec<Center>)
    ensures
        r@.len() == colors@.len(),
        forall|i: int| 0 <= i < colors@.len() ==> (#[trigger] r@[i]).data == colors@[i] && r@[i].point is None,
{
    let mut v: Vec<Center> = Vec::new();
    for i in 0..colors.len()
        invariant
            v@.len() == i,
            forall|j: int| 0 <= j < i ==> (#[trigger] v@[j]).data == colors@[j] && v@[j].point is None,
    {
        v.push(Center { point: None, data: colors[i] });
    }
    v
}

/// `(x, y, z)` lies before `start` on some axis, or after `end` on some axis.
pub open spec fn outside_box(
    x: usize,
    y: usize,
    z: usize,
    start: Option<(usize, usize, usize)>,
    end: Option<(usize, usize, usize)>,
) -> bool {
    ||| start matches Some(s) && (s.0 > x || s.1 > y || s.2 > z)
    ||| end matches Some(e) && (e.0 < x || e.1 < y || e.2 < z)
}

/// The intensity of voxel `(x, y, z)`, or `OUTSIDE_INTENSITY` when it lies
/// outside the box from `start` to `end` (either bound may be missing).
pub fn masked_intensity(
    x: usize,
    y: usize,
    z: usize,
    value: i16,
    start: Option<(usize, usize, usize)>,
    end: Option<(usize, usize, usize)>,
) -> (r: i16)
    ensures
        r == if outside_box(x, y, z, start, end) {
            OUTSIDE_INTENSITY
        } else {
            value
        },
{
    let mut d = value;
    if let Some(s) = start {
        if s.0 > x || s.1 > y || s.2 > z {
            d = OUTSIDE_INTENSITY;
        }
    }
    if let Some(e) = end {
        if e.0 < x || e.1 < y || e.2 < z {
            d = OUTSIDE_INTENSITY;
        }
    }
    d
}

/// The sample for pixel `i` of slice `z`, whose rows are `rows` pixels long:
/// it lies at `x = i % rows`, `y = i / rows` (each coordinate cast to `u16`),
/// with its intensity masked by the box.
pub fn sample_at(
    i: usize,
    rows: usize,
    z: usize,
    value: i16,
    start: Option<(usize, usize, usize)>,
    end: Option<(usize, usize, usize)>,
) -> (r: Data)
    requires
        rows > 0,
    ensures
        r.point.x == (i % rows) as u16,
        r.point.y == (i / rows) as u16,
        r.point.z == z as u16,
        r.data == if outside_box(i % rows, i / rows, z, start, end) {
            OUTSIDE_INTENSITY
        } else {
            value
        },
{
    let x = i % rows;
    let y = i / rows;
    Data { point: Point::new(x as u16, y as u16, z as u16), data: masked_intensity(x, y, z, value, start, end) }
}

/// The positions of the samples of each group.
pub fn points_of(groups: &Vec<Vec<Data>>) -> (r: Vec<Vec<Point>>)
    ensures
        r@.len() == groups@.len(),
        forall|g: int|
            0 <= g < groups@.len() ==> (#[trigger] r@[g])@ == groups@[g]@.map_values(|d: Data| d.point),
{
    let mut v: Vec<Vec<Point>> = Vec::new();
    for g in 0..groups.len()
        invariant
            v@.len() == g,
            forall|h: int| 0 <= h < g ==> (#[trigger] v@[h])@ == groups@[h]@.map_values(|d: Data| d.point),
    {
        let group = &groups[g];
        let mut pts: Vec<Point> = Vec::new();
        for k in 0..group.len()
            invariant
                pts@ == group@.take(k as int).map_values(|d: Data| d.point),
        {
            assert(group@.take(k + 1).map_values(|d: Data| d.point) =~= group@.take(k as int).map_values(
                |d: Data| d.point,
            ).push(group@[k as int].point));
            pts.push(group[k].point);
        }
        assert(group@.take(group@.len() as int) =~= group@);
        v.push(pts);
    }
    v
}

/// The depth extent of a scan whose slices have the given depths: one more
/// than the deepest, or 1 for no slice.
pub fn grid_height(depths: &[usize]) -> (r: usize)
    requires
        forall|i: int| 0 <= i < depths@.len() ==> #[trigger] depths@[i] < usize::MAX,
    ensures
        forall|i: int| 0 <= i < depths@.len() ==> #[trigger] depths@[i] < r,
        depths@.len() == 0 ==> r == 1,
        depths@.len() > 0 ==> exists|i: int| 0 <= i < depths@.len() && r == #[trigger] depths@[i] + 1,
{
    let mut m: usize = 0;
    for i in 0..depths.len()
        invariant
            forall|j: int| 0 <= j < depths@.len() ==> #[trigger] depths@[j] < usize::MAX,
            forall|j: int| 0 <= j < i ==> #[trigger] depths@[j] <= m,
            i > 0 ==> exists|j: int| 0 <= j < i && m == #[trigger] depths@[j],
            i == 0 ==> m == 0,
    {
        if depths[i] > m || i == 0 {
            m = depths[i];
        }
    }
    m + 1
}

} // verus!

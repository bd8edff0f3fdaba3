//! The single-slice variant of the morphological filter, used to preview one
//! depth: a voxel is painted or not, and cells have 8 neighbours in the slice.
use crate::members::lemma_push_contains;
use crate::point::Point;
use vstd::prelude::*;

verus! {

/// `(a, b)` is one of the 8 cells around `(x, y)` inside `rows × columns`
/// (`-1` on an axis only above 0, `+1` only below the last index).
pub open spec fn is_neighbor_2d(rows: int, columns: int, x: int, y: int, a: int, b: int) -> bool {
    &&& -1 <= a - x <= 1
    &&& -1 <= b - y <= 1
    &&& !(a == x && b == y)
    &&& 0 <= a < rows
    &&& 0 <= b < columns
}

/// Some point of `data` lies at column `a`, row `b` (at whatever depth).
pub open spec fn painted(data: Seq<Point>, a: int, b: int) -> bool {
    exists|k: int| 0 <= k < data.len() && (#[trigger] data[k]).x == a && data[k].y == b
}

pub open spec fn dilated_cell_2d(rows: int, columns: int, data: Seq<Point>, x: int, y: int) -> bool {
    exists|a: int, b: int| #[trigger] is_neighbor_2d(rows, columns, x, y, a, b) && painted(data, a, b)
}

pub open spec fn eroded_cell_2d(rows: int, columns: int, data: Seq<Point>, x: int, y: int) -> bool {
    forall|a: int, b: int| #[trigger] is_neighbor_2d(rows, columns, x, y, a, b) ==> painted(data, a, b)
}

/// The cells `(x, y)` with `x < m` and `y < columns` that satisfy `pred`, at
/// depth `z`, in `x`-then-`y` order.
pub open spec fn scan_select(m: int, columns: int, z: u16, pred: spec_fn(int, int) -> bool) -> Seq<Point>
    decreases m,
{
    if m <= 0 {
        seq![]
    } else {
        scan_select(m - 1, columns, z, pred) + column_select(m - 1, columns, z, pred)
    }
}

pub open spec fn column_select(x: int, n: int, z: u16, pred: spec_fn(int, int) -> bool) -> Seq<Point>
    decreases n,
{
    if n <= 0 {
        seq![]
    } else if pred(x, n - 1) {
        column_select(x, n - 1, z, pred).push(Point { x: x as u16, y: (n - 1) as u16, z })
    } else {
        column_select(x, n - 1, z, pred)
    }
}

pub open spec fn dilated_pred_2d(rows: int, columns: int, data: Seq<Point>) -> spec_fn(int, int) -> bool {
    |x: int, y: int| dilated_cell_2d(rows, columns, data, x, y)
}

pub open spec fn eroded_pred_2d(rows: int, columns: int, data: Seq<Point>) -> spec_fn(int, int) -> bool {
    |x: int, y: int| eroded_cell_2d(rows, columns, data, x, y)
}

/// One dilation of the slice: the cells with at least one painted neighbour.
pub open spec fn dilated_2d(rows: int, columns: int, z: u16, data: Seq<Point>) -> Seq<Point> {
    scan_select(rows, columns, z, dilated_pred_2d(rows, columns, data))
}

/// One erosion of the slice: the cells whose neighbours are all painted.
pub open spec fn eroded_2d(rows: int, columns: int, z: u16, data: Seq<Point>) -> Seq<Point> {
    scan_select(rows, columns, z, eroded_pred_2d(rows, columns, data))
}

pub open spec fn dilated_2d_n(rows: int, columns: int, z: u16, data: Seq<Point>, n: nat) -> Seq<Point>
    decreases n,
{
    if n == 0 {
        data
    } else {
        dilated_2d(rows, columns, z, dilated_2d_n(rows, columns, z, data, (n - 1) as nat))
    }
}

pub open spec fn eroded_2d_n(rows: int, columns: int, z: u16, data: Seq<Point>, n: nat) -> Seq<Point>
    decreases n,
{
    if n == 0 {
        data
    } else {
        eroded_2d(rows, columns, z, eroded_2d_n(rows, columns, z, data, (n - 1) as nat))
    }
}

/// The 8-connected neighbours of `(x, y)` in the slice.
pub fn neighbors_2d(rows: i16, columns: i16, x: i16, y: i16) -> (r: Vec<(i16, i16)>)
    requires
        0 <= x < rows,
        0 <= y < columns,
    ensures
        forall|a: int, b: int| #[trigger] r@.contains((a as i16, b as i16)) && -0x8000 <= a < 0x8000
            && -0x8000 <= b < 0x8000 <==> is_neighbor_2d(rows as int, columns as int, x as int, y as int, a, b),
        forall|k: int| 0 <= k < r@.len() ==> is_neighbor_2d(rows as int, columns as int, x as int, y as int, (#[trigger] r@[k]).0 as int, r@[k].1 as int),
{
    let mut v: Vec<(i16, i16)> = Vec::new();
    let mut dx: i16 = -1;
    while dx <= 1
        invariant
            0 <= x < rows,
            0 <= y < columns,
            -1 <= dx <= 2,
            forall|k: int| 0 <= k < v@.len() ==> is_neighbor_2d(rows as int, columns as int, x as int, y as int, (#[trigger] v@[k]).0 as int, v@[k].1 as int),
            forall|a: int, b: int| a - x < dx && is_neighbor_2d(rows as int, columns as int, x as int, y as int, a, b)
                ==> #[trigger] v@.contains((a as i16, b as i16)),
        decreases 2 - dx,
    {
        let mut dy: i16 = -1;
        while dy <= 1
            invariant
                0 <= x < rows,
                0 <= y < columns,
                -1 <= dx <= 1,
                -1 <= dy <= 2,
                forall|k: int| 0 <= k < v@.len() ==> is_neighbor_2d(rows as int, columns as int, x as int, y as int, (#[trigger] v@[k]).0 as int, v@[k].1 as int),
                forall|a: int, b: int| (a - x < dx || (a - x == dx && b - y < dy)) && is_neighbor_2d(rows as int, columns as int, x as int, y as int, a, b)
                    ==> #[trigger] v@.contains((a as i16, b as i16)),
            decreases 2 - dy,
        {
            let a = x + dx;
            let b = y + dy;
            if !(dx == 0 && dy == 0) && 0 <= a && a < rows && 0 <= b && b < columns {
                proof {
                    lemma_push_contains(v@, (a, b));
                }
                v.push((a, b));
            }
            dy = dy + 1;
        }
        dx = dx + 1;
    }
    proof {
        assert forall|a: int, b: int| #[trigger] v@.contains((a as i16, b as i16)) && -0x8000 <= a < 0x8000
            && -0x8000 <= b < 0x8000 implies is_neighbor_2d(rows as int, columns as int, x as int, y as int, a, b) by {
            let k = choose|k: int| 0 <= k < v@.len() && v@[k] == (a as i16, b as i16);
            assert(is_neighbor_2d(rows as int, columns as int, x as int, y as int, v@[k].0 as int, v@[k].1 as int));
        }
    }
    v
}

/// Whether a point of `data` lies at `(a, b)`.
fn is_painted(data: &[Point], a: i16, b: i16) -> (r: bool)
    ensures
        r == painted(data@, a as int, b as int),
{
    for k in 0..data.len()
        invariant
            forall|l: int| 0 <= l < k ==> !((#[trigger] data@[l]).x == a && data@[l].y == b),
    {
        if data[k].x as i32 == a as i32 && data[k].y as i32 == b as i32 {
            return true;
        }
    }
    false
}

/// Paints a cell of the slice at depth `z` when at least one of its 8
/// neighbours is painted in `data`. Cells come in `x`-then-`y` order.
pub fn diation(rows: i16, columns: i16, z: u16, data: &[Point]) -> (r: Vec<Point>)
    ensures
        r@ == dilated_2d(rows as int, columns as int, z, data@),
{
    scan_slice(rows, columns, z, data, false)
}

/// Paints a cell of the slice at depth `z` when all of its 8 neighbours are
/// painted in `data`. Cells come in `x`-then-`y` order.
pub fn erosion(rows: i16, columns: i16, z: u16, data: &[Point]) -> (r: Vec<Point>)
    ensures
        r@ == eroded_2d(rows as int, columns as int, z, data@),
{
    scan_slice(rows, columns, z, data, true)
}

fn scan_slice(rows: i16, columns: i16, z: u16, data: &[Point], all: bool) -> (r: Vec<Point>)
    ensures
        r@ == scan_select(
            rows as int,
            columns as int,
            z,
            if all {
                eroded_pred_2d(rows as int, columns as int, data@)
            } else {
                dilated_pred_2d(rows as int, columns as int, data@)
            },
        ),
{
    let ghost pred = if all {
        eroded_pred_2d(rows as int, columns as int, data@)
    } else {
        dilated_pred_2d(rows as int, columns as int, data@)
    };
    let mut v: Vec<Point> = Vec::new();
    let mut x: i16 = 0;
    while x < rows
        invariant
            0 <= x,
            rows <= 0 ==> x == 0,
            rows > 0 ==> x <= rows,
            v@ == scan_select(x as int, columns as int, z, pred),
            pred == if all {
                eroded_pred_2d(rows as int, columns as int, data@)
            } else {
                dilated_pred_2d(rows as int, columns as int, data@)
            },
        decreases rows - x,
    {
        let mut y: i16 = 0;
        while y < columns
            invariant
                0 <= x < rows,
                0 <= y,
                columns <= 0 ==> y == 0,
                columns > 0 ==> y <= columns,
                v@ == scan_select(x as int, columns as int, z, pred) + column_select(x as int, y as int, z, pred),
                pred == if all {
                    eroded_pred_2d(rows as int, columns as int, data@)
                } else {
                    dilated_pred_2d(rows as int, columns as int, data@)
                },
            decreases columns - y,
        {
            let nbrs = neighbors_2d(rows, columns, x, y);
            let mut hit = all;
            for k in 0..nbrs.len()
                invariant
                    all ==> (hit <==> forall|l: int| 0 <= l < k ==> painted(data@, (#[trigger] nbrs@[l]).0 as int, nbrs@[l].1 as int)),
                    !all ==> (hit <==> exists|l: int| 0 <= l < k && painted(data@, (#[trigger] nbrs@[l]).0 as int, nbrs@[l].1 as int)),
            {
                let (a, b) = nbrs[k];
                let p = is_painted(data, a, b);
                if all && !p {
                    hit = false;
                } else if !all && p {
                    hit = true;
                }
            }
            proof {
                if all {
                    if hit {
                        assert forall|a: int, b: int| #[trigger] is_neighbor_2d(rows as int, columns as int, x as int, y as int, a, b)
                            implies painted(data@, a, b) by {
                            assert(nbrs@.contains((a as i16, b as i16)));
                            let l = choose|l: int| 0 <= l < nbrs@.len() && nbrs@[l] == (a as i16, b as i16);
                            assert(painted(data@, nbrs@[l].0 as int, nbrs@[l].1 as int));
                        }
                    } else {
                        let l = choose|l: int| !(0 <= l < nbrs@.len() ==> painted(data@, (#[trigger] nbrs@[l]).0 as int, nbrs@[l].1 as int));
                        assert(is_neighbor_2d(rows as int, columns as int, x as int, y as int, nbrs@[l].0 as int, nbrs@[l].1 as int));
                    }
                    assert(hit == pred(x as int, y as int));
                } else {
                    if hit {
                        let l = choose|l: int| 0 <= l < nbrs@.len() && painted(data@, (#[trigger] nbrs@[l]).0 as int, nbrs@[l].1 as int);
                        assert(is_neighbor_2d(rows as int, columns as int, x as int, y as int, nbrs@[l].0 as int, nbrs@[l].1 as int));
                    } else {
                        assert forall|a: int, b: int| #[trigger] is_neighbor_2d(rows as int, columns as int, x as int, y as int, a, b)
                            implies !painted(data@, a, b) by {
                            assert(nbrs@.contains((a as i16, b as i16)));
                            let l = choose|l: int| 0 <= l < nbrs@.len() && nbrs@[l] == (a as i16, b as i16);
                        }
                    }
                    assert(hit == pred(x as int, y as int));
                }
            }
            if hit {
                v.push(Point::new(x as u16, y as u16, z));
            }
            y = y + 1;
        }
        assert(column_select(x as int, y as int, z, pred) == column_select(x as int, columns as int, z, pred));
        assert(scan_select(x + 1, columns as int, z, pred) == scan_select(x as int, columns as int, z, pred)
            + column_select(x as int, columns as int, z, pred));
        x = x + 1;
    }
    assert(scan_select(x as int, columns as int, z, pred) == scan_select(rows as int, columns as int, z, pred));
    v
}

fn copy_points(data: &[Point]) -> (r: Vec<Point>)
    ensures
        r@ == data@,
{
    let mut r: Vec<Point> = Vec::new();
    for i in 0..data.len()
        invariant
            r@ == data@.take(i as int),
    {
        assert(data@.take(i + 1) =~= data@.take(i as int).push(data@[i as int]));
        r.push(data[i]);
    }
    assert(data@.take(data@.len() as int) =~= data@);
    r
}

/// Opening of the slice: `n` erosions, then `n` dilations.
pub fn opening(rows: i16, columns: i16, z: u16, data: &[Point], n: usize) -> (r: Vec<Point>)
    ensures
        r@ == dilated_2d_n(
            rows as int,
            columns as int,
            z,
            eroded_2d_n(rows as int, columns as int, z, data@, n as nat),
            n as nat,
        ),
{
    let mut v = copy_points(data);
    for i in 0..n
        invariant
            v@ == eroded_2d_n(rows as int, columns as int, z, data@, i as nat),
    {
        v = erosion(rows, columns, z, v.as_slice());
    }
    let ghost base = v@;
    for i in 0..n
        invariant
            v@ == dilated_2d_n(rows as int, columns as int, z, base, i as nat),
    {
        v = diation(rows, columns, z, v.as_slice());
    }
    v
}

/// Closing of the slice: `n` dilations, then `n` erosions.
pub fn closing(rows: i16, columns: i16, z: u16, data: &[Point], n: usize) -> (r: Vec<Point>)
    ensures
        r@ == eroded_2d_n(
            rows as int,
            columns as int,
            z,
            dilated_2d_n(rows as int, columns as int, z, data@, n as nat),
            n as nat,
        ),
{
    let mut v = copy_points(data);
    for i in 0..n
        invariant
            v@ == dilated_2d_n(rows as int, columns as int, z, data@, i as nat),
    {
        v = diation(rows, columns, z, v.as_slice());
    }
    let ghost base = v@;
    for i in 0..n
        invariant
            v@ == eroded_2d_n(rows as int, columns as int, z, base, i as nat),
    {
        v = erosion(rows, columns, z, v.as_slice());
    }
    v
}

} // verus!

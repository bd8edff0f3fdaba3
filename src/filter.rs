//! Morphological passes over the labelling grid: dilation, erosion, opening
//! and closing, on the 6-neighbourhood of each cell.
use crate::grid::{
    cell_members, cell_point, cell_view, grid_view, grid_wf, in_extent, is_at, Block, Cell, Grid,
    GroupList,
};
use crate::members::{
    has_member, insert_member, lemma_is_sorted_members, lemma_push_contains, lemma_sorted_members, sorted_members, strictly_sorted,
};
use crate::point::Point;
use vstd::prelude::*;

verus! {

/// `q` is next to `p` along one axis, on the side where `p` does not touch the
/// border of the `rows × columns × height` extent.
pub open spec fn is_neighbor(rows: int, columns: int, height: int, p: Point, q: Point) -> bool {
    let (px, py, pz) = (p.x as int, p.y as int, p.z as int);
    let (qx, qy, qz) = (q.x as int, q.y as int, q.z as int);
    ||| qy == py && qz == pz && ((qx == px - 1 && px > 0) || (qx == px + 1 && px < rows - 1))
    ||| qx == px && qz == pz && ((qy == py - 1 && py > 0) || (qy == py + 1 && py < columns - 1))
    ||| qx == px && qy == py && ((qz == pz - 1 && pz > 0) || (qz == pz + 1 && pz < height - 1))
}

/// Each index of the extent fits the `u16` coordinate of a point.
pub open spec fn extent_ok(rows: int, columns: int, height: int) -> bool {
    rows <= 0x10000 && columns <= 0x10000 && height <= 0x10000
}

/// The positions next to `point` along one axis, without wrapping around the
/// border: `-1` on an axis only above 0, `+1` only below the extent's last
/// index. A corner cell has 3 neighbours, an inner cell 6.
pub fn neighborhood(rows: usize, columns: usize, height: usize, point: &Point) -> (r: Vec<Point>)
    requires
        extent_ok(rows as int, columns as int, height as int),
        rows > 0 && columns > 0 && height > 0,
    ensures
        forall|q: Point| r@.contains(q) <==> is_neighbor(rows as int, columns as int, height as int, *point, q),
        r@.no_duplicates(),
        r@.len() <= 6,
{
    let p = *point;
    let mut v: Vec<Point> = Vec::new();
    if 0 < p.x {
        let c = Point { x: p.x - 1, ..p };
        proof {
            lemma_push_contains(v@, c);
        }
        v.push(c);
    }
    if (p.x as usize) < rows - 1 {
        let c = Point { x: p.x + 1, ..p };
        proof {
            lemma_push_contains(v@, c);
        }
        v.push(c);
    }
    if 0 < p.y {
        let c = Point { y: p.y - 1, ..p };
        proof {
            lemma_push_contains(v@, c);
        }
        v.push(c);
    }
    if (p.y as usize) < columns - 1 {
        let c = Point { y: p.y + 1, ..p };
        proof {
            lemma_push_contains(v@, c);
        }
        v.push(c);
    }
    if 0 < p.z {
        let c = Point { z: p.z - 1, ..p };
        proof {
            lemma_push_contains(v@, c);
        }
        v.push(c);
    }
    if (p.z as usize) < height - 1 {
        let c = Point { z: p.z + 1, ..p };
        proof {
            lemma_push_contains(v@, c);
        }
        v.push(c);
    }
    v
}


/// The cell of the grid at position `q`.
pub open spec fn cell_at(grid: Grid, q: Point) -> Cell {
    grid[q.x as int][q.y as int][q.z as int]
}

/// The cell is present and belongs to class `g`.
pub open spec fn has_class(c: Cell, g: usize) -> bool {
    c is Some && cell_members(c).contains(g)
}

/// Some neighbour of `p` belongs to class `g` (absent neighbours count as empty).
pub open spec fn dilated_has(grid: Grid, rows: int, columns: int, height: int, p: Point, g: usize) -> bool {
    exists|q: Point| #[trigger] is_neighbor(rows, columns, height, p, q) && has_class(cell_at(grid, q), g)
}

/// Class `g` is below `group_size` and every neighbour of `p` with a non-empty
/// member list belongs to it. With no such neighbour this holds of every class.
pub open spec fn eroded_has(
    grid: Grid,
    rows: int,
    columns: int,
    height: int,
    group_size: int,
    p: Point,
    g: usize,
) -> bool {
    &&& g < group_size
    &&& forall|q: Point|
        #[trigger] is_neighbor(rows, columns, height, p, q) && cell_at(grid, q) is Some
            && cell_members(cell_at(grid, q)).len() > 0 ==> cell_members(cell_at(grid, q)).contains(g)
}

pub open spec fn dilated_pred(grid: Grid, rows: int, columns: int, height: int, p: Point) -> spec_fn(usize) -> bool {
    |g: usize| dilated_has(grid, rows, columns, height, p, g)
}

pub open spec fn eroded_pred(
    grid: Grid,
    rows: int,
    columns: int,
    height: int,
    group_size: int,
    p: Point,
) -> spec_fn(usize) -> bool {
    |g: usize| eroded_has(grid, rows, columns, height, group_size, p, g)
}

/// The point at grid index `(x, y, z)`.
pub open spec fn point_at(x: int, y: int, z: int) -> Point {
    Point { x: x as u16, y: y as u16, z: z as u16 }
}

/// One dilation pass: every cell of the extent becomes present, with the
/// sorted union of its neighbours' member lists (an absent neighbour counts as
/// empty), whether it was present or absent before.
pub open spec fn dilated(grid: Grid, rows: int, columns: int, height: int) -> Grid {
    Seq::new(
        rows as nat,
        |x: int|
            Seq::new(
                columns as nat,
                |y: int|
                    Seq::new(
                        height as nat,
                        |z: int|
                            Some(
                                (
                                    point_at(x, y, z),
                                    sorted_members(dilated_pred(grid, rows, columns, height, point_at(x, y, z))),
                                ),
                            ),
                    ),
            ),
    )
}

/// One erosion pass: each present cell keeps, in order, the classes below
/// `group_size` that every neighbour with a non-empty member list has;
/// absent cells stay absent.
pub open spec fn eroded(grid: Grid, rows: int, columns: int, height: int, group_size: int) -> Grid {
    Seq::new(
        rows as nat,
        |x: int|
            Seq::new(
                columns as nat,
                |y: int|
                    Seq::new(
                        height as nat,
                        |z: int|
                            match grid[x][y][z] {
                                Some(c) => Some(
                                    (
                                        c.0,
                                        sorted_members(
                                            eroded_pred(grid, rows, columns, height, group_size, c.0),
                                        ),
                                    ),
                                ),
                                None => None,
                            },
                    ),
            ),
    )
}

/// The coordinates of `p` and `q` differ on exactly one axis, by exactly 1.
pub open spec fn one_step_apart(p: Point, q: Point) -> bool {
    let (dx, dy, dz) = (q.x as int - p.x as int, q.y as int - p.y as int, q.z as int - p.z as int);
    ||| (dx == 1 || dx == -1) && dy == 0 && dz == 0
    ||| dx == 0 && (dy == 1 || dy == -1) && dz == 0
    ||| dx == 0 && dy == 0 && (dz == 1 || dz == -1)
}

/// The neighbours of an in-extent point lie in the extent and are one step
/// away along one axis: no negative, wrapped, clamped or mirrored position.
pub proof fn lemma_neighbor_in_extent(rows: int, columns: int, height: int, p: Point, q: Point)
    requires
        in_extent(p.x as int, p.y as int, p.z as int, rows, columns, height),
        is_neighbor(rows, columns, height, p, q),
    ensures
        in_extent(q.x as int, q.y as int, q.z as int, rows, columns, height),
        one_step_apart(p, q),
{
}

fn dilated_members(
    rows: usize,
    columns: usize,
    height: usize,
    data: &Block<GroupList>,
    point: Point,
) -> (m: Vec<usize>)
    requires
        extent_ok(rows as int, columns as int, height as int),
        grid_wf(grid_view(*data), rows as int, columns as int, height as int),
        in_extent(point.x as int, point.y as int, point.z as int, rows as int, columns as int, height as int),
    ensures
        m@ == sorted_members(dilated_pred(grid_view(*data), rows as int, columns as int, height as int, point)),
{
    let ghost gv = grid_view(*data);
    let nbrs = neighborhood(rows, columns, height, &point);
    let mut m: Vec<usize> = Vec::new();
    for i in 0..nbrs.len()
        invariant
            gv == grid_view(*data),
            extent_ok(rows as int, columns as int, height as int),
            grid_wf(gv, rows as int, columns as int, height as int),
            in_extent(point.x as int, point.y as int, point.z as int, rows as int, columns as int, height as int),
            forall|q: Point| nbrs@.contains(q) <==> is_neighbor(rows as int, columns as int, height as int, point, q),
            strictly_sorted(m@),
            forall|g: usize|
                m@.contains(g) <==> exists|j: int| 0 <= j < i && has_class(cell_at(gv, #[trigger] nbrs@[j]), g),
    {
        let q = nbrs[i];
        assert(nbrs@.contains(q));
        proof {
            lemma_neighbor_in_extent(rows as int, columns as int, height as int, point, q);
        }
        let ghost cell = cell_at(gv, q);
        assert(gv[q.x as int].len() == columns);
        assert(gv[q.x as int][q.y as int].len() == height);
        if let Some((_, lst)) = &data[q.x as usize][q.y as usize][q.z as usize] {
            assert(cell_members(cell) == lst@);
            for k in 0..lst.len()
                invariant
                    strictly_sorted(m@),
                    forall|g: usize|
                        m@.contains(g) <==> (exists|j: int| 0 <= j < i && has_class(cell_at(gv, #[trigger] nbrs@[j]), g))
                            || exists|l: int| 0 <= l < k && lst@[l] == g,
            {
                insert_member(&mut m, lst[k]);
            }
        }
        assert forall|g: usize|
            m@.contains(g) <==> exists|j: int| 0 <= j < i + 1 && has_class(cell_at(gv, #[trigger] nbrs@[j]), g) by {
            if has_class(cell, g) {
                assert(cell_members(cell).contains(g));
            }
        }
    }
    assert forall|g: usize|
        m@.contains(g) <==> #[trigger] dilated_pred(gv, rows as int, columns as int, height as int, point)(g) by {
        if m@.contains(g) {
            let j = choose|j: int| 0 <= j < nbrs@.len() && has_class(cell_at(gv, #[trigger] nbrs@[j]), g);
            assert(nbrs@.contains(nbrs@[j]));
        }
        if dilated_has(gv, rows as int, columns as int, height as int, point, g) {
            let q = choose|q: Point| #[trigger] is_neighbor(rows as int, columns as int, height as int, point, q) && has_class(cell_at(gv, q), g);
            assert(nbrs@.contains(q));
            let j = choose|j: int| 0 <= j < nbrs@.len() && nbrs@[j] == q;
            assert(has_class(cell_at(gv, nbrs@[j]), g));
        }
    }
    proof {
        lemma_is_sorted_members(m@, dilated_pred(gv, rows as int, columns as int, height as int, point));
    }
    m
}


fn eroded_members(
    rows: usize,
    columns: usize,
    height: usize,
    data: &Block<GroupList>,
    group_size: usize,
    point: Point,
) -> (m: Vec<usize>)
    requires
        extent_ok(rows as int, columns as int, height as int),
        grid_wf(grid_view(*data), rows as int, columns as int, height as int),
        in_extent(point.x as int, point.y as int, point.z as int, rows as int, columns as int, height as int),
    ensures
        m@ == sorted_members(
            eroded_pred(grid_view(*data), rows as int, columns as int, height as int, group_size as int, point),
        ),
{
    let ghost gv = grid_view(*data);
    let nbrs = neighborhood(rows, columns, height, &point);
    let mut m: Vec<usize> = Vec::new();
    for g in 0..group_size
        invariant
            gv == grid_view(*data),
            extent_ok(rows as int, columns as int, height as int),
            grid_wf(gv, rows as int, columns as int, height as int),
            in_extent(point.x as int, point.y as int, point.z as int, rows as int, columns as int, height as int),
            forall|q: Point| nbrs@.contains(q) <==> is_neighbor(rows as int, columns as int, height as int, point, q),
            strictly_sorted(m@),
            forall|k: int| 0 <= k < m@.len() ==> m@[k] < g,
            forall|h: usize|
                m@.contains(h) <==> h < g && eroded_has(gv, rows as int, columns as int, height as int, group_size as int, point, h),
    {
        let mut keep = true;
        for j in 0..nbrs.len()
            invariant
                gv == grid_view(*data),
                grid_wf(gv, rows as int, columns as int, height as int),
                in_extent(point.x as int, point.y as int, point.z as int, rows as int, columns as int, height as int),
                forall|q: Point| nbrs@.contains(q) <==> is_neighbor(rows as int, columns as int, height as int, point, q),
                keep <==> forall|l: int|
                    0 <= l < j && cell_at(gv, #[trigger] nbrs@[l]) is Some && cell_members(cell_at(gv, nbrs@[l])).len() > 0
                        ==> cell_members(cell_at(gv, nbrs@[l])).contains(g),
        {
            let q = nbrs[j];
            assert(nbrs@.contains(q));
            proof {
                lemma_neighbor_in_extent(rows as int, columns as int, height as int, point, q);
            }
            assert(gv[q.x as int].len() == columns);
            assert(gv[q.x as int][q.y as int].len() == height);
            if let Some((_, lst)) = &data[q.x as usize][q.y as usize][q.z as usize] {
                if lst.len() > 0 && !has_member(lst, g) {
                    keep = false;
                }
            }
        }
        assert(keep <==> eroded_has(gv, rows as int, columns as int, height as int, group_size as int, point, g)) by {
            if keep {
                assert forall|q: Point|
                    #[trigger] is_neighbor(rows as int, columns as int, height as int, point, q) && cell_at(gv, q) is Some
                        && cell_members(cell_at(gv, q)).len() > 0 implies cell_members(cell_at(gv, q)).contains(g) by {
                    assert(nbrs@.contains(q));
                    let l = choose|l: int| 0 <= l < nbrs@.len() && nbrs@[l] == q;
                    assert(cell_at(gv, nbrs@[l]) == cell_at(gv, q));
                }
            } else {
                let l = choose|l: int|
                    !(0 <= l < nbrs@.len() && cell_at(gv, #[trigger] nbrs@[l]) is Some && cell_members(cell_at(gv, nbrs@[l])).len() > 0
                        ==> cell_members(cell_at(gv, nbrs@[l])).contains(g));
                assert(nbrs@.contains(nbrs@[l]));
            }
        }
        if keep {
            proof {
                lemma_push_contains(m@, g);
            }
            m.push(g);
        } else {
            assert forall|h: usize|
                m@.contains(h) <==> h < g + 1 && eroded_has(gv, rows as int, columns as int, height as int, group_size as int, point, h) by {
                if m@.contains(h) && h == g {
                    let k = choose|k: int| 0 <= k < m@.len() && m@[k] == h;
                    assert(m@[k] < g);
                }
            }
        }
    }
    assert forall|h: usize|
        m@.contains(h) <==> #[trigger] eroded_pred(gv, rows as int, columns as int, height as int, group_size as int, point)(h) by {
    }
    proof {
        lemma_is_sorted_members(m@, eroded_pred(gv, rows as int, columns as int, height as int, group_size as int, point));
    }
    m
}


enum Pass {
    Dilate,
    Erode { group_size: usize },
}

spec fn pass_result(grid: Grid, rows: int, columns: int, height: int, pass: Pass) -> Grid {
    match pass {
        Pass::Dilate => dilated(grid, rows, columns, height),
        Pass::Erode { group_size } => eroded(grid, rows, columns, height, group_size as int),
    }
}

/// Builds a fresh grid from a read-only snapshot: each present cell gets the
/// members that the pass computes for it, each absent cell stays absent.
fn apply_pass(rows: usize, columns: usize, height: usize, data: &Block<GroupList>, pass: Pass) -> (r: Block<
    GroupList,
>)
    requires
        extent_ok(rows as int, columns as int, height as int),
        grid_wf(grid_view(*data), rows as int, columns as int, height as int),
    ensures
        grid_view(r) == pass_result(grid_view(*data), rows as int, columns as int, height as int, pass),
{
    let ghost gv = grid_view(*data);
    let ghost want = pass_result(gv, rows as int, columns as int, height as int, pass);
    let mut v: Block<GroupList> = Vec::new();
    for x in 0..rows
        invariant
            gv == grid_view(*data),
            want == pass_result(gv, rows as int, columns as int, height as int, pass),
            extent_ok(rows as int, columns as int, height as int),
            grid_wf(gv, rows as int, columns as int, height as int),
            v@.len() == x,
            forall|i: int| 0 <= i < x ==> #[trigger] v@[i]@.len() == columns,
            forall|i: int, j: int| 0 <= i < x && 0 <= j < columns ==> #[trigger] v@[i]@[j]@.len() == height,
            forall|i: int, j: int, k: int|
                0 <= i < x && 0 <= j < columns && 0 <= k < height ==> #[trigger] cell_view(v@[i]@[j]@[k])
                    == want[i][j][k],
    {
        assert(gv[x as int].len() == columns);
        let plane_in = &data[x];
        let mut plane: Vec<Vec<Option<GroupList>>> = Vec::new();
        for y in 0..columns
            invariant
                gv == grid_view(*data),
                want == pass_result(gv, rows as int, columns as int, height as int, pass),
                extent_ok(rows as int, columns as int, height as int),
                grid_wf(gv, rows as int, columns as int, height as int),
                0 <= x < rows,
                plane_in == data@[x as int],
                plane_in@.len() == columns,
                plane@.len() == y,
                forall|j: int| 0 <= j < y ==> #[trigger] plane@[j]@.len() == height,
                forall|j: int, k: int|
                    0 <= j < y && 0 <= k < height ==> #[trigger] cell_view(plane@[j]@[k]) == want[x as int][j][k],
        {
            assert(gv[x as int][y as int].len() == height);
            let row_in = &plane_in[y];
            let mut row: Vec<Option<GroupList>> = Vec::new();
            for z in 0..height
                invariant
                    gv == grid_view(*data),
                    want == pass_result(gv, rows as int, columns as int, height as int, pass),
                    extent_ok(rows as int, columns as int, height as int),
                    grid_wf(gv, rows as int, columns as int, height as int),
                    0 <= x < rows,
                    0 <= y < columns,
                    row_in == data@[x as int]@[y as int],
                    row_in@.len() == height,
                    data@.len() == rows,
                    data@[x as int]@.len() == columns,
                    row@.len() == z,
                    forall|k: int| 0 <= k < z ==> #[trigger] cell_view(row@[k]) == want[x as int][y as int][k],
            {
                assert(gv[x as int][y as int][z as int] == cell_view(row_in@[z as int]));
                let cell = match pass {
                    Pass::Dilate => {
                        let point = Point::new(x as u16, y as u16, z as u16);
                        assert(point == point_at(x as int, y as int, z as int));
                        Some((point, dilated_members(rows, columns, height, data, point)))
                    },
                    Pass::Erode { group_size } => match &row_in[z] {
                        Some((point, _)) => {
                            assert(is_at(*point, x as int, y as int, z as int));
                            Some((*point, eroded_members(rows, columns, height, data, group_size, *point)))
                        },
                        None => None,
                    },
                };
                row.push(cell);
            }
            plane.push(row);
        }
        v.push(plane);
    }
    assert(grid_view(v) =~~= want);
    v
}

/// One dilation pass over the whole grid (see `dilated`).
pub fn diation_block(rows: usize, columns: usize, height: usize, data: &Block<GroupList>) -> (r: Block<
    GroupList,
>)
    requires
        extent_ok(rows as int, columns as int, height as int),
        grid_wf(grid_view(*data), rows as int, columns as int, height as int),
    ensures
        grid_view(r) == dilated(grid_view(*data), rows as int, columns as int, height as int),
{
    apply_pass(rows, columns, height, data, Pass::Dilate)
}

/// One erosion pass over the whole grid (see `eroded`).
pub fn erosion_block(
    rows: usize,
    columns: usize,
    height: usize,
    data: &Block<GroupList>,
    group_size: usize,
) -> (r: Block<GroupList>)
    requires
        extent_ok(rows as int, columns as int, height as int),
        grid_wf(grid_view(*data), rows as int, columns as int, height as int),
    ensures
        grid_view(r) == eroded(grid_view(*data), rows as int, columns as int, height as int, group_size as int),
{
    apply_pass(rows, columns, height, data, Pass::Erode { group_size })
}


/// `n` dilation passes.
pub open spec fn dilated_n(grid: Grid, rows: int, columns: int, height: int, n: nat) -> Grid
    decreases n,
{
    if n == 0 {
        grid
    } else {
        dilated(dilated_n(grid, rows, columns, height, (n - 1) as nat), rows, columns, height)
    }
}

/// `n` erosion passes.
pub open spec fn eroded_n(grid: Grid, rows: int, columns: int, height: int, group_size: int, n: nat) -> Grid
    decreases n,
{
    if n == 0 {
        grid
    } else {
        eroded(eroded_n(grid, rows, columns, height, group_size, (n - 1) as nat), rows, columns, height, group_size)
    }
}

/// Opening: `n` erosions, then `n` dilations.
pub open spec fn opened(grid: Grid, rows: int, columns: int, height: int, group_size: int, n: nat) -> Grid {
    dilated_n(eroded_n(grid, rows, columns, height, group_size, n), rows, columns, height, n)
}

/// Closing: `n` dilations, then `n` erosions.
pub open spec fn closed(grid: Grid, rows: int, columns: int, height: int, group_size: int, n: nat) -> Grid {
    eroded_n(dilated_n(grid, rows, columns, height, n), rows, columns, height, group_size, n)
}

pub proof fn lemma_dilated_wf(grid: Grid, rows: int, columns: int, height: int)
    requires
        grid_wf(grid, rows, columns, height),
        extent_ok(rows, columns, height),
    ensures
        grid_wf(dilated(grid, rows, columns, height), rows, columns, height),
{
    let d = dilated(grid, rows, columns, height);
    assert forall|x: int, y: int, z: int|
        in_extent(x, y, z, rows, columns, height) && (#[trigger] d[x][y][z]) is Some implies is_at(
            cell_point(d[x][y][z]),
            x,
            y,
            z,
        ) by {
        assert(grid[x].len() == columns);
        assert(grid[x][y].len() == height);
    }
    if rows > 0 {
        assert(grid[0].len() == columns);
        if columns > 0 {
            assert(grid[0][0].len() == height);
        }
    }
}

pub proof fn lemma_eroded_wf(grid: Grid, rows: int, columns: int, height: int, group_size: int)
    requires
        grid_wf(grid, rows, columns, height),
    ensures
        grid_wf(eroded(grid, rows, columns, height, group_size), rows, columns, height),
{
    let d = eroded(grid, rows, columns, height, group_size);
    assert forall|x: int, y: int, z: int|
        in_extent(x, y, z, rows, columns, height) && (#[trigger] d[x][y][z]) is Some implies is_at(
            cell_point(d[x][y][z]),
            x,
            y,
            z,
        ) by {
        assert(grid[x].len() == columns);
        assert(grid[x][y].len() == height);
    }
    if rows > 0 {
        assert(grid[0].len() == columns);
        if columns > 0 {
            assert(grid[0][0].len() == height);
        }
    }
}

fn copy_members(s: &Vec<usize>) -> (r: Vec<usize>)
    ensures
        r@ == s@,
{
    let mut r: Vec<usize> = Vec::new();
    for i in 0..s.len()
        invariant
            r@ == s@.take(i as int),
    {
        assert(s@.take(i + 1) =~= s@.take(i as int).push(s@[i as int]));
        r.push(s[i]);
    }
    assert(s@.take(s@.len() as int) =~= s@);
    r
}

fn copy_block(data: &Block<GroupList>) -> (r: Block<GroupList>)
    ensures
        grid_view(r) == grid_view(*data),
{
    let ghost gv = grid_view(*data);
    let mut v: Block<GroupList> = Vec::new();
    for x in 0..data.len()
        invariant
            gv == grid_view(*data),
            v@.len() == x,
            forall|i: int| 0 <= i < x ==> #[trigger] grid_view(v)[i] == gv[i],
    {
        let mut plane: Vec<Vec<Option<GroupList>>> = Vec::new();
        let plane_in = &data[x];
        for y in 0..plane_in.len()
            invariant
                gv == grid_view(*data),
                0 <= x < data@.len(),
                plane_in == data@[x as int],
                plane@.len() == y,
                forall|j: int| 0 <= j < y ==> #[trigger] plane@[j]@.len() == data@[x as int]@[j]@.len(),
                forall|j: int, k: int|
                    0 <= j < y && 0 <= k < plane@[j]@.len() ==> #[trigger] cell_view(plane@[j]@[k]) == gv[x as int][j][k],
        {
            let mut row: Vec<Option<GroupList>> = Vec::new();
            let row_in = &plane_in[y];
            for z in 0..row_in.len()
                invariant
                    gv == grid_view(*data),
                    0 <= x < data@.len(),
                    0 <= y < data@[x as int]@.len(),
                    row_in == data@[x as int]@[y as int],
                    row@.len() == z,
                    forall|k: int| 0 <= k < z ==> #[trigger] cell_view(row@[k]) == gv[x as int][y as int][k],
            {
                let cell = match &row_in[z] {
                    Some((point, members)) => Some((*point, copy_members(members))),
                    None => None,
                };
                row.push(cell);
            }
            plane.push(row);
        }
        let ghost before = v;
        v.push(plane);
        assert forall|i: int| 0 <= i < x + 1 implies #[trigger] grid_view(v)[i] == gv[i] by {
            if i < x {
                assert(v@[i] == before@[i]);
                assert(grid_view(v)[i] =~~= grid_view(before)[i]);
            } else {
                assert(grid_view(v)[i] =~~= gv[i]);
            }
        }
    }
    assert(grid_view(v) =~~= gv);
    v
}

/// Opening: `n` erosion passes, then `n` dilation passes, each pass reading
/// the whole output of the one before.
pub fn opening_block(
    rows: usize,
    columns: usize,
    height: usize,
    data: &Block<GroupList>,
    group_size: usize,
    n: usize,
) -> (r: Block<GroupList>)
    requires
        extent_ok(rows as int, columns as int, height as int),
        grid_wf(grid_view(*data), rows as int, columns as int, height as int),
    ensures
        grid_view(r) == opened(grid_view(*data), rows as int, columns as int, height as int, group_size as int, n as nat),
{
    let ghost gv = grid_view(*data);
    let mut v = copy_block(data);
    for i in 0..n
        invariant
            extent_ok(rows as int, columns as int, height as int),
            grid_view(v) == eroded_n(gv, rows as int, columns as int, height as int, group_size as int, i as nat),
            grid_wf(grid_view(v), rows as int, columns as int, height as int),
    {
        proof {
            lemma_eroded_wf(grid_view(v), rows as int, columns as int, height as int, group_size as int);
        }
        v = erosion_block(rows, columns, height, &v, group_size);
    }
    let ghost base = grid_view(v);
    for i in 0..n
        invariant
            extent_ok(rows as int, columns as int, height as int),
            grid_view(v) == dilated_n(base, rows as int, columns as int, height as int, i as nat),
            grid_wf(grid_view(v), rows as int, columns as int, height as int),
    {
        proof {
            lemma_dilated_wf(grid_view(v), rows as int, columns as int, height as int);
        }
        v = diation_block(rows, columns, height, &v);
    }
    v
}

/// Closing: `n` dilation passes, then `n` erosion passes, each pass reading
/// the whole output of the one before.
pub fn closing_block(
    rows: usize,
    columns: usize,
    height: usize,
    data: &Block<GroupList>,
    group_size: usize,
    n: usize,
) -> (r: Block<GroupList>)
    requires
        extent_ok(rows as int, columns as int, height as int),
        grid_wf(grid_view(*data), rows as int, columns as int, height as int),
    ensures
        grid_view(r) == closed(grid_view(*data), rows as int, columns as int, height as int, group_size as int, n as nat),
{
    let ghost gv = grid_view(*data);
    let mut v = copy_block(data);
    for i in 0..n
        invariant
            extent_ok(rows as int, columns as int, height as int),
            grid_view(v) == dilated_n(gv, rows as int, columns as int, height as int, i as nat),
            grid_wf(grid_view(v), rows as int, columns as int, height as int),
    {
        proof {
            lemma_dilated_wf(grid_view(v), rows as int, columns as int, height as int);
        }
        v = diation_block(rows, columns, height, &v);
    }
    let ghost base = grid_view(v);
    for i in 0..n
        invariant
            extent_ok(rows as int, columns as int, height as int),
            grid_view(v) == eroded_n(base, rows as int, columns as int, height as int, group_size as int, i as nat),
            grid_wf(grid_view(v), rows as int, columns as int, height as int),
    {
        proof {
            lemma_eroded_wf(grid_view(v), rows as int, columns as int, height as int, group_size as int);
        }
        v = erosion_block(rows, columns, height, &v, group_size);
    }
    v
}


proof fn lemma_neighbor_symmetric(rows: int, columns: int, height: int, p: Point, q: Point)
    requires
        in_extent(p.x as int, p.y as int, p.z as int, rows, columns, height),
        is_neighbor(rows, columns, height, p, q),
    ensures
        is_neighbor(rows, columns, height, q, p),
{
}

/// A class held by a cell and by one of its neighbours is still held by the
/// cell after one more dilation pass. (Dilation reads the neighbours only, so
/// the neighbour is needed: see `dilated`.)
pub proof fn lemma_dilation_keeps_shared_class(
    grid: Grid,
    rows: int,
    columns: int,
    height: int,
    x: int,
    y: int,
    z: int,
    q: Point,
    c: usize,
)
    requires
        grid_wf(grid, rows, columns, height),
        in_extent(x, y, z, rows, columns, height),
        has_class(grid[x][y][z], c),
        is_neighbor(rows, columns, height, cell_point(grid[x][y][z]), q),
        has_class(cell_at(grid, q), c),
    ensures
        has_class(dilated(grid, rows, columns, height)[x][y][z], c),
{
    let p = cell_point(grid[x][y][z]);
    let pred = dilated_pred(grid, rows, columns, height, p);
    lemma_sorted_members(pred);
    assert(pred(c));
}

/// After one opening pass (one erosion, then one dilation), a cell that held
/// at least one class holds no class it did not hold before: the opening
/// never grows a region past its original extent.
pub proof fn lemma_opening_within_original(
    grid: Grid,
    rows: int,
    columns: int,
    height: int,
    group_size: int,
    x: int,
    y: int,
    z: int,
    c: usize,
)
    requires
        grid_wf(grid, rows, columns, height),
        in_extent(x, y, z, rows, columns, height),
        grid[x][y][z] is Some,
        cell_members(grid[x][y][z]).len() > 0,
        has_class(opened(grid, rows, columns, height, group_size, 1)[x][y][z], c),
    ensures
        cell_members(grid[x][y][z]).contains(c),
{
    let e = eroded(grid, rows, columns, height, group_size);
    assert(eroded_n(grid, rows, columns, height, group_size, 0) == grid);
    assert(eroded_n(grid, rows, columns, height, group_size, 1) == e);
    assert(dilated_n(e, rows, columns, height, 0) == e);
    assert(opened(grid, rows, columns, height, group_size, 1) == dilated(e, rows, columns, height));
    lemma_eroded_wf(grid, rows, columns, height, group_size);
    let p = cell_point(grid[x][y][z]);
    assert(e[x][y][z] is Some);
    assert(cell_point(e[x][y][z]) == p);
    lemma_sorted_members(dilated_pred(e, rows, columns, height, p));
    let o = dilated(e, rows, columns, height);
    assert(o[x][y][z] == Some((p, sorted_members(dilated_pred(e, rows, columns, height, p)))));
    assert(dilated_pred(e, rows, columns, height, p)(c));
    assert(dilated_has(e, rows, columns, height, p, c));
    let q = choose|q: Point| #[trigger] is_neighbor(rows, columns, height, p, q) && has_class(cell_at(e, q), c);
    lemma_neighbor_in_extent(rows, columns, height, p, q);
    lemma_neighbor_symmetric(rows, columns, height, p, q);
    let qc = cell_at(grid, q);
    assert(qc is Some);
    assert(cell_point(qc) == q);
    lemma_sorted_members(eroded_pred(grid, rows, columns, height, group_size, q));
    assert(cell_at(e, q) == Some((q, sorted_members(eroded_pred(grid, rows, columns, height, group_size, q)))));
    assert(eroded_pred(grid, rows, columns, height, group_size, q)(c));
    assert(eroded_has(grid, rows, columns, height, group_size, q, c));
    assert(cell_at(grid, p) == grid[x][y][z]);
}

/// A class held at a cell is gone after one opening pass when each neighbour
/// of the cell has another non-empty neighbour without that class: single
/// voxels of noise inside another class disappear.
pub proof fn lemma_opening_removes_noise(
    grid: Grid,
    rows: int,
    columns: int,
    height: int,
    group_size: int,
    x: int,
    y: int,
    z: int,
    c: usize,
)
    requires
        grid_wf(grid, rows, columns, height),
        in_extent(x, y, z, rows, columns, height),
        grid[x][y][z] is Some,
        forall|q: Point|
            #[trigger] is_neighbor(rows, columns, height, cell_point(grid[x][y][z]), q) ==> exists|r: Point|
                #[trigger] is_neighbor(rows, columns, height, q, r) && cell_at(grid, r) is Some
                    && cell_members(cell_at(grid, r)).len() > 0 && !cell_members(cell_at(grid, r)).contains(c),
    ensures
        !has_class(opened(grid, rows, columns, height, group_size, 1)[x][y][z], c),
{
    let e = eroded(grid, rows, columns, height, group_size);
    assert(eroded_n(grid, rows, columns, height, group_size, 0) == grid);
    assert(eroded_n(grid, rows, columns, height, group_size, 1) == e);
    assert(dilated_n(e, rows, columns, height, 0) == e);
    assert(opened(grid, rows, columns, height, group_size, 1) == dilated(e, rows, columns, height));
    lemma_eroded_wf(grid, rows, columns, height, group_size);
    let p = cell_point(grid[x][y][z]);
    assert(e[x][y][z] is Some);
    assert(cell_point(e[x][y][z]) == p);
    lemma_sorted_members(dilated_pred(e, rows, columns, height, p));
    let o = dilated(e, rows, columns, height);
    assert(o[x][y][z] == Some((p, sorted_members(dilated_pred(e, rows, columns, height, p)))));
    if has_class(o[x][y][z], c) {
        assert(dilated_pred(e, rows, columns, height, p)(c));
        assert(dilated_has(e, rows, columns, height, p, c));
        let q = choose|q: Point| #[trigger] is_neighbor(rows, columns, height, p, q) && has_class(cell_at(e, q), c);
        lemma_neighbor_in_extent(rows, columns, height, p, q);
        let qc = cell_at(grid, q);
        assert(qc is Some);
        assert(cell_point(qc) == q);
        lemma_sorted_members(eroded_pred(grid, rows, columns, height, group_size, q));
        assert(cell_at(e, q) == Some((q, sorted_members(eroded_pred(grid, rows, columns, height, group_size, q)))));
        assert(eroded_pred(grid, rows, columns, height, group_size, q)(c));
        assert(eroded_has(grid, rows, columns, height, group_size, q, c));
        let r = choose|r: Point|
            #[trigger] is_neighbor(rows, columns, height, q, r) && cell_at(grid, r) is Some
                && cell_members(cell_at(grid, r)).len() > 0 && !cell_members(cell_at(grid, r)).contains(c);
        assert(false);
    }
}

/// Erosion of a present cell none of whose neighbours has a non-empty member
/// list: no neighbour constrains any class, so the cell gets every class
/// `0, 1, ..., group_size - 1`.
pub proof fn lemma_erosion_vacuous(
    grid: Grid,
    rows: int,
    columns: int,
    height: int,
    group_size: usize,
    x: int,
    y: int,
    z: int,
)
    requires
        grid_wf(grid, rows, columns, height),
        in_extent(x, y, z, rows, columns, height),
        grid[x][y][z] is Some,
        forall|q: Point|
            #[trigger] is_neighbor(rows, columns, height, cell_point(grid[x][y][z]), q) ==> cell_at(grid, q) is None
                || cell_members(cell_at(grid, q)).len() == 0,
    ensures
        eroded(grid, rows, columns, height, group_size as int)[x][y][z] == Some(
            (cell_point(grid[x][y][z]), Seq::new(group_size as nat, |i: int| i as usize)),
        ),
{
    let p = cell_point(grid[x][y][z]);
    let pred = eroded_pred(grid, rows, columns, height, group_size as int, p);
    let all = Seq::new(group_size as nat, |i: int| i as usize);
    assert forall|g: usize| all.contains(g) <==> #[trigger] pred(g) by {
        if g < group_size {
            assert(all[g as int] == g);
        }
    }
    lemma_is_sorted_members(all, pred);
}

/// Every cell of the extent is present.
pub open spec fn all_present(grid: Grid, rows: int, columns: int, height: int) -> bool {
    forall|x: int, y: int, z: int| in_extent(x, y, z, rows, columns, height) ==> (#[trigger] grid[x][y][z]) is Some
}

/// A class held at a cell reaches every neighbour of the cell after one
/// dilation pass.
pub proof fn lemma_dilation_spreads(
    grid: Grid,
    rows: int,
    columns: int,
    height: int,
    x: int,
    y: int,
    z: int,
    q: Point,
    c: usize,
)
    requires
        grid_wf(grid, rows, columns, height),
        extent_ok(rows, columns, height),
        in_extent(x, y, z, rows, columns, height),
        has_class(grid[x][y][z], c),
        is_neighbor(rows, columns, height, cell_point(grid[x][y][z]), q),
    ensures
        has_class(dilated(grid, rows, columns, height)[q.x as int][q.y as int][q.z as int], c),
{
    let p = cell_point(grid[x][y][z]);
    lemma_neighbor_in_extent(rows, columns, height, p, q);
    lemma_neighbor_symmetric(rows, columns, height, p, q);
    let qp = point_at(q.x as int, q.y as int, q.z as int);
    assert(qp == q);
    assert(cell_at(grid, p) == grid[x][y][z]);
    let pred = dilated_pred(grid, rows, columns, height, q);
    assert(dilated_has(grid, rows, columns, height, q, c));
    assert(pred(c));
    lemma_sorted_members(pred);
}

/// After a dilation pass every cell of the extent is present.
pub proof fn lemma_dilated_all_present(grid: Grid, rows: int, columns: int, height: int)
    ensures
        all_present(dilated(grid, rows, columns, height), rows, columns, height),
{
}

/// Erosion keeps present cells present.
pub proof fn lemma_eroded_keeps_present(grid: Grid, rows: int, columns: int, height: int, group_size: int)
    requires
        grid_wf(grid, rows, columns, height),
        all_present(grid, rows, columns, height),
    ensures
        all_present(eroded(grid, rows, columns, height, group_size), rows, columns, height),
{
    assert forall|x: int, y: int, z: int| in_extent(x, y, z, rows, columns, height) implies (#[trigger] eroded(
        grid,
        rows,
        columns,
        height,
        group_size,
    )[x][y][z]) is Some by {
        assert(grid[x][y][z] is Some);
    }
}

pub proof fn lemma_dilated_n_wf(grid: Grid, rows: int, columns: int, height: int, n: nat)
    requires
        grid_wf(grid, rows, columns, height),
        extent_ok(rows, columns, height),
    ensures
        grid_wf(dilated_n(grid, rows, columns, height, n), rows, columns, height),
        n >= 1 ==> all_present(dilated_n(grid, rows, columns, height, n), rows, columns, height),
    decreases n,
{
    if n > 0 {
        lemma_dilated_n_wf(grid, rows, columns, height, (n - 1) as nat);
        lemma_dilated_wf(dilated_n(grid, rows, columns, height, (n - 1) as nat), rows, columns, height);
        lemma_dilated_all_present(dilated_n(grid, rows, columns, height, (n - 1) as nat), rows, columns, height);
    }
}

pub proof fn lemma_eroded_n_wf(grid: Grid, rows: int, columns: int, height: int, group_size: int, n: nat)
    requires
        grid_wf(grid, rows, columns, height),
    ensures
        grid_wf(eroded_n(grid, rows, columns, height, group_size, n), rows, columns, height),
        all_present(grid, rows, columns, height) ==> all_present(
            eroded_n(grid, rows, columns, height, group_size, n),
            rows,
            columns,
            height,
        ),
    decreases n,
{
    if n > 0 {
        let prev = eroded_n(grid, rows, columns, height, group_size, (n - 1) as nat);
        lemma_eroded_n_wf(grid, rows, columns, height, group_size, (n - 1) as nat);
        lemma_eroded_wf(prev, rows, columns, height, group_size);
        if all_present(grid, rows, columns, height) {
            lemma_eroded_keeps_present(prev, rows, columns, height, group_size);
        }
    }
}

/// After an opening with at least one pass every cell of the extent is
/// present: its last pass is a dilation.
pub proof fn lemma_opened_all_present(grid: Grid, rows: int, columns: int, height: int, group_size: int, n: nat)
    requires
        grid_wf(grid, rows, columns, height),
        extent_ok(rows, columns, height),
        n >= 1,
    ensures
        all_present(opened(grid, rows, columns, height, group_size, n), rows, columns, height),
{
    lemma_eroded_n_wf(grid, rows, columns, height, group_size, n);
    lemma_dilated_n_wf(eroded_n(grid, rows, columns, height, group_size, n), rows, columns, height, n);
}

/// After a closing with at least one pass every cell of the extent is
/// present: its first pass is a dilation, and erosion keeps cells present.
pub proof fn lemma_closed_all_present(grid: Grid, rows: int, columns: int, height: int, group_size: int, n: nat)
    requires
        grid_wf(grid, rows, columns, height),
        extent_ok(rows, columns, height),
        n >= 1,
    ensures
        all_present(closed(grid, rows, columns, height, group_size, n), rows, columns, height),
{
    lemma_dilated_n_wf(grid, rows, columns, height, n);
    lemma_eroded_n_wf(dilated_n(grid, rows, columns, height, n), rows, columns, height, group_size, n);
}

} // verus!

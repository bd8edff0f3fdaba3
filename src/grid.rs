//! The labelling grid (`GroupBlock`): a dense 3D array of cells, each absent or
//! present with the list of classes it belongs to, and its conversion from and
//! to per-class position lists.
use crate::point::Point;
use vstd::prelude::*;

verus! {

/// A present cell: its position and the classes it belongs to.
pub type GroupList = (Point, Vec<usize>);

/// A dense 3D array indexed `[x][y][z]`; `None` is an absent cell.
pub type Block<T> = Vec<Vec<Vec<Option<T>>>>;

/// A cell as contracts see it.
pub type Cell = Option<(Point, Seq<usize>)>;

/// A grid as contracts see it.
pub type Grid = Seq<Seq<Seq<Cell>>>;

pub open spec fn cell_view(c: Option<GroupList>) -> Cell {
    match c {
        Some(gl) => Some((gl.0, gl.1@)),
        None => None,
    }
}

pub open spec fn cell_point(c: Cell) -> Point {
    c->Some_0.0
}

pub open spec fn cell_members(c: Cell) -> Seq<usize> {
    c->Some_0.1
}

pub open spec fn plane_view(plane: Vec<Vec<Option<GroupList>>>) -> Seq<Seq<Cell>> {
    Seq::new(plane@.len(), |y: int| Seq::new(plane@[y]@.len(), |z: int| cell_view(plane@[y]@[z])))
}

pub open spec fn grid_view(b: Block<GroupList>) -> Grid {
    Seq::new(b@.len(), |x: int| plane_view(b@[x]))
}

pub open spec fn is_at(p: Point, x: int, y: int, z: int) -> bool {
    p.x == x && p.y == y && p.z == z
}

pub open spec fn in_extent(x: int, y: int, z: int, rows: int, columns: int, height: int) -> bool {
    0 <= x < rows && 0 <= y < columns && 0 <= z < height
}

/// `g` is `rows × columns × height`, and each present cell stores its own position.
pub open spec fn grid_wf(g: Grid, rows: int, columns: int, height: int) -> bool {
    &&& g.len() == rows
    &&& forall|x: int| 0 <= x < rows ==> #[trigger] g[x].len() == columns
    &&& forall|x: int, y: int|
        0 <= x < rows && 0 <= y < columns ==> #[trigger] g[x][y].len() == height
    &&& forall|x: int, y: int, z: int|
        in_extent(x, y, z, rows, columns, height) && (#[trigger] g[x][y][z]) is Some ==> is_at(
            cell_point(g[x][y][z]),
            x,
            y,
            z,
        )
}

/// Every class of every present cell is below `group_size`.
pub open spec fn members_below(g: Grid, group_size: int) -> bool {
    forall|x: int, y: int, z: int, k: int|
        0 <= x < g.len() && 0 <= y < g[x].len() && 0 <= z < g[x][y].len()
            && g[x][y][z] is Some && 0 <= k < cell_members(g[x][y][z]).len()
            ==> #[trigger] cell_members(g[x][y][z])[k] < group_size
}

pub open spec fn lists_view(data: &[Vec<Point>]) -> Seq<Seq<Point>> {
    Seq::new(data@.len(), |n: int| data@[n]@)
}

/// Every position of every list lies in the extent.
pub open spec fn lists_in_extent(lists: Seq<Seq<Point>>, rows: int, columns: int, height: int) -> bool {
    forall|n: int, j: int|
        0 <= n < lists.len() && 0 <= j < lists[n].len() ==> in_extent(
            (#[trigger] lists[n][j]).x as int,
            lists[n][j].y as int,
            lists[n][j].z as int,
            rows,
            columns,
            height,
        )
}

/// The highest index of a list that holds `p`.
pub open spec fn last_list_with(lists: Seq<Seq<Point>>, p: Point) -> Option<int>
    decreases lists.len(),
{
    if lists.len() == 0 {
        None
    } else if lists.last().contains(p) {
        Some(lists.len() - 1)
    } else {
        last_list_with(lists.drop_last(), p)
    }
}

/// The cell at `(x, y, z)` after the lists were written in order.
pub open spec fn listed_cell(lists: Seq<Seq<Point>>, x: int, y: int, z: int) -> Cell {
    if 0 <= x <= u16::MAX && 0 <= y <= u16::MAX && 0 <= z <= u16::MAX {
        let p = Point { x: x as u16, y: y as u16, z: z as u16 };
        match last_list_with(lists, p) {
            Some(n) => Some((p, seq![n as usize])),
            None => None,
        }
    } else {
        None
    }
}

/// The grid built from the lists: a position listed by class `n` (and by no
/// later class) is present with members `[n]`; every other cell is absent.
pub open spec fn listed_grid(rows: int, columns: int, height: int, lists: Seq<Seq<Point>>) -> Grid {
    Seq::new(
        rows as nat,
        |x: int|
            Seq::new(
                columns as nat,
                |y: int| Seq::new(height as nat, |z: int| listed_cell(lists, x, y, z)),
            ),
    )
}

proof fn lemma_last_list_with_bound(lists: Seq<Seq<Point>>, p: Point)
    ensures
        last_list_with(lists, p) matches Some(n) ==> 0 <= n < lists.len() && lists[n].contains(p),
    decreases lists.len(),
{
    if lists.len() > 0 && !lists.last().contains(p) {
        lemma_last_list_with_bound(lists.drop_last(), p);
    }
}

proof fn lemma_last_list_push(prefix: Seq<Seq<Point>>, cur: Seq<Point>, p: Point, q: Point)
    ensures
        last_list_with(prefix.push(cur.push(p)), q) == if q == p {
            Some(prefix.len() as int)
        } else {
            last_list_with(prefix.push(cur), q)
        },
{
    assert(prefix.push(cur.push(p)).drop_last() =~= prefix);
    assert(prefix.push(cur).drop_last() =~= prefix);
    if q != p {
        assert(cur.push(p).contains(q) == cur.contains(q)) by {
            if cur.push(p).contains(q) {
                let i = choose|i: int| 0 <= i < cur.push(p).len() && cur.push(p)[i] == q;
                assert(cur[i] == q);
            }
            if cur.contains(q) {
                let i = choose|i: int| 0 <= i < cur.len() && cur[i] == q;
                assert(cur.push(p)[i] == q);
            }
        }
    } else {
        assert(cur.push(p)[cur.len() as int] == p);
    }
}

/// Builds the grid from one position list per class (class `n` is the list's
/// index). Where two lists name one position, the later list wins.
pub fn gen_blocks(rows: usize, columns: usize, height: usize, data: &[Vec<Point>]) -> (r: Block<
    GroupList,
>)
    requires
        lists_in_extent(lists_view(data), rows as int, columns as int, height as int),
    ensures
        grid_view(r) == listed_grid(rows as int, columns as int, height as int, lists_view(data)),
{
    let mut v: Block<GroupList> = Vec::new();
    for x in 0..rows
        invariant
            v@.len() == x,
            forall|i: int| 0 <= i < x ==> #[trigger] v@[i]@.len() == columns,
            forall|i: int, j: int|
                0 <= i < x && 0 <= j < columns ==> #[trigger] v@[i]@[j]@.len() == height,
            forall|i: int, j: int, k: int|
                0 <= i < x && 0 <= j < columns && 0 <= k < height ==> #[trigger] v@[i]@[j]@[k]
                    is None,
    {
        let mut plane: Vec<Vec<Option<GroupList>>> = Vec::new();
        for y in 0..columns
            invariant
                plane@.len() == y,
                forall|j: int| 0 <= j < y ==> #[trigger] plane@[j]@.len() == height,
                forall|j: int, k: int|
                    0 <= j < y && 0 <= k < height ==> #[trigger] plane@[j]@[k] is None,
        {
            let mut row: Vec<Option<GroupList>> = Vec::new();
            for z in 0..height
                invariant
                    row@.len() == z,
                    forall|k: int| 0 <= k < z ==> #[trigger] row@[k] is None,
            {
                row.push(None);
            }
            plane.push(row);
        }
        v.push(plane);
    }
    let ghost lists = lists_view(data);
    for n in 0..data.len()
        invariant
            lists == lists_view(data),
            lists_in_extent(lists, rows as int, columns as int, height as int),
            v@.len() == rows,
            forall|i: int| 0 <= i < rows ==> #[trigger] v@[i]@.len() == columns,
            forall|i: int, j: int|
                0 <= i < rows && 0 <= j < columns ==> #[trigger] v@[i]@[j]@.len() == height,
            forall|i: int, j: int, k: int|
                in_extent(i, j, k, rows as int, columns as int, height as int) ==> #[trigger] cell_view(
                    v@[i]@[j]@[k],
                ) == listed_cell(lists.take(n as int), i, j, k),
    {
        let lst = &data[n];
        proof {
            assert(lst@.take(0) =~= Seq::<Point>::empty());
            assert(lists.take(n as int).push(lst@.take(0)).drop_last() =~= lists.take(n as int));
        }
        for j in 0..lst.len()
            invariant
                lists == lists_view(data),
                lists_in_extent(lists, rows as int, columns as int, height as int),
                0 <= n < lists.len(),
                lst@ == lists[n as int],
                v@.len() == rows,
                forall|i: int| 0 <= i < rows ==> #[trigger] v@[i]@.len() == columns,
                forall|i: int, j: int|
                    0 <= i < rows && 0 <= j < columns ==> #[trigger] v@[i]@[j]@.len() == height,
                forall|a: int, b: int, c: int|
                    in_extent(a, b, c, rows as int, columns as int, height as int)
                        ==> #[trigger] cell_view(v@[a]@[b]@[c]) == listed_cell(
                        lists.take(n as int).push(lst@.take(j as int)),
                        a,
                        b,
                        c,
                    ),
        {
            let p = lst[j];
            assert(lists[n as int][j as int] == p);
            v[p.x as usize][p.y as usize][p.z as usize] = Some((p, vec![n]));
            proof {
                let prefix = lists.take(n as int);
                assert(lst@.take(j + 1) =~= lst@.take(j as int).push(p));
                assert forall|a: int, b: int, c: int|
                    in_extent(a, b, c, rows as int, columns as int, height as int) implies #[trigger] cell_view(
                        v@[a]@[b]@[c],
                    ) == listed_cell(prefix.push(lst@.take(j + 1)), a, b, c) by {
                    if 0 <= a <= u16::MAX && 0 <= b <= u16::MAX && 0 <= c <= u16::MAX {
                        let q = Point { x: a as u16, y: b as u16, z: c as u16 };
                        lemma_last_list_push(prefix, lst@.take(j as int), p, q);
                    }
                }
            }
        }
        proof {
            assert(lst@.take(lst@.len() as int) =~= lst@);
            assert(lists.take(n as int).push(lst@) =~= lists.take(n + 1));
        }
    }
    assert(lists.take(data@.len() as int) =~= lists);
    assert(grid_view(v) =~~= listed_grid(rows as int, columns as int, height as int, lists));
    v
}


/// The lowest class in a non-empty member list.
pub open spec fn lowest(s: Seq<usize>) -> usize
    decreases s.len(),
{
    if s.len() <= 1 {
        s[0]
    } else if s.last() < lowest(s.drop_last()) {
        s.last()
    } else {
        lowest(s.drop_last())
    }
}

/// The class that a cell is reported under: the lowest of its members, if it
/// is present with at least one.
pub open spec fn reported_class(c: Cell) -> Option<usize> {
    if c is Some && cell_members(c).len() > 0 {
        Some(lowest(cell_members(c)))
    } else {
        None
    }
}

/// The positions of the cells of a row reported under class `g`, in order.
pub open spec fn row_points(row: Seq<Cell>, g: usize) -> Seq<Point>
    decreases row.len(),
{
    if row.len() == 0 {
        seq![]
    } else if reported_class(row.last()) == Some(g) {
        row_points(row.drop_last(), g).push(cell_point(row.last()))
    } else {
        row_points(row.drop_last(), g)
    }
}

pub open spec fn plane_points(plane: Seq<Seq<Cell>>, g: usize) -> Seq<Point>
    decreases plane.len(),
{
    if plane.len() == 0 {
        seq![]
    } else {
        plane_points(plane.drop_last(), g) + row_points(plane.last(), g)
    }
}

/// The positions of the cells reported under class `g`, in `x`, `y`, `z` order.
pub open spec fn grid_points(grid: Grid, g: usize) -> Seq<Point>
    decreases grid.len(),
{
    if grid.len() == 0 {
        seq![]
    } else {
        grid_points(grid.drop_last(), g) + plane_points(grid.last(), g)
    }
}

fn lowest_member(s: &Vec<usize>) -> (m: usize)
    requires
        s@.len() > 0,
    ensures
        m == lowest(s@),
{
    let mut m = s[0];
    let mut i: usize = 1;
    assert(s@.take(1).drop_last() =~= Seq::<usize>::empty());
    assert(lowest(s@.take(1)) == s@[0]);
    while i < s.len()
        invariant
            1 <= i <= s@.len(),
            m == lowest(s@.take(i as int)),
        decreases s@.len() - i,
    {
        assert(s@.take(i + 1).drop_last() =~= s@.take(i as int));
        if s[i] < m {
            m = s[i];
        }
        i = i + 1;
    }
    assert(s@.take(s@.len() as int) =~= s@);
    m
}

proof fn lemma_take_step<A>(s: Seq<A>, i: int)
    requires
        0 <= i < s.len(),
    ensures
        s.take(i + 1).drop_last() == s.take(i),
        s.take(i + 1).last() == s[i],
{
    assert(s.take(i + 1).drop_last() =~= s.take(i));
}

/// Every class of every present cell of the plane is below `group_size`.
pub open spec fn plane_members_below(plane: Seq<Seq<Cell>>, group_size: int) -> bool {
    forall|y: int, z: int, k: int|
        0 <= y < plane.len() && 0 <= z < plane[y].len() && plane[y][z] is Some && 0 <= k < cell_members(
            plane[y][z],
        ).len() ==> #[trigger] cell_members(plane[y][z])[k] < group_size
}

/// Appends the positions of the plane's cells to the list of the class each
/// is reported under.
fn collect_plane(plane: &Vec<Vec<Option<GroupList>>>, v: &mut Vec<Vec<Point>>)
    requires
        plane_members_below(plane_view(*plane), old(v)@.len() as int),
    ensures
        final(v)@.len() == old(v)@.len(),
        forall|g: int|
            0 <= g < old(v)@.len() ==> #[trigger] final(v)@[g]@ == old(v)@[g]@ + plane_points(
                plane_view(*plane),
                g as usize,
            ),
{
    let ghost pv = plane_view(*plane);
    let ghost start = v@;
    let group_size = v.len();
    assert(pv.take(0) =~= Seq::<Seq<Cell>>::empty());
    for y in 0..plane.len()
        invariant
            pv == plane_view(*plane),
            plane_members_below(pv, group_size as int),
            v@.len() == group_size,
            start.len() == group_size,
            forall|g: int| 0 <= g < group_size ==> #[trigger] v@[g]@ == start[g]@ + plane_points(pv.take(y as int), g as usize),
    {
        let row = &plane[y];
        assert(pv[y as int].take(0) =~= Seq::<Cell>::empty());
        for z in 0..row.len()
            invariant
                pv == plane_view(*plane),
                plane_members_below(pv, group_size as int),
                0 <= y < pv.len(),
                row@.len() == pv[y as int].len(),
                row == plane@[y as int],
                v@.len() == group_size,
                start.len() == group_size,
                forall|g: int| 0 <= g < group_size ==> #[trigger] v@[g]@ == start[g]@ + plane_points(pv.take(y as int), g as usize)
                    + row_points(pv[y as int].take(z as int), g as usize),
        {
            let ghost cell = pv[y as int][z as int];
            proof {
                lemma_take_step(pv[y as int], z as int);
            }
            if let Some((point, group)) = &row[z] {
                if group.len() > 0 {
                    let g = lowest_member(group);
                    assert(cell_members(cell)[0] < group_size);
                    proof {
                        lemma_lowest_in(group@);
                    }
                    v[g].push(*point);
                }
            }
            assert forall|g: int| 0 <= g < group_size implies #[trigger] v@[g]@ == start[g]@ + plane_points(pv.take(y as int), g as usize)
                + row_points(pv[y as int].take(z + 1), g as usize) by {
            }
        }
        proof {
            lemma_take_step(pv, y as int);
            assert(pv[y as int].take(row@.len() as int) =~= pv[y as int]);
            assert forall|g: int| 0 <= g < group_size implies #[trigger] v@[g]@ == start[g]@ + plane_points(pv.take(y + 1), g as usize) by {
                assert(plane_points(pv.take(y + 1), g as usize) == plane_points(pv.take(y as int), g as usize) + row_points(pv[y as int], g as usize));
            }
        }
    }
    assert(pv.take(plane@.len() as int) =~= pv);
}

fn empty_lists(group_size: usize) -> (v: Vec<Vec<Point>>)
    ensures
        v@.len() == group_size,
        forall|g: int| 0 <= g < group_size ==> (#[trigger] v@[g])@ == Seq::<Point>::empty(),
{
    let mut v: Vec<Vec<Point>> = Vec::new();
    for g in 0..group_size
        invariant
            v@.len() == g,
            forall|k: int| 0 <= k < g ==> (#[trigger] v@[k])@ == Seq::<Point>::empty(),
    {
        v.push(Vec::new());
    }
    v
}

/// Lists the positions of the present cells by class: a cell goes to the list
/// of the lowest class it belongs to; absent cells and cells with no class go
/// nowhere. Each list is in `x`, then `y`, then `z` order.
pub fn blocks_to_points(blocks: Block<GroupList>, group_size: usize) -> (r: Vec<Vec<Point>>)
    requires
        members_below(grid_view(blocks), group_size as int),
    ensures
        r@.len() == group_size,
        forall|g: int| 0 <= g < group_size ==> #[trigger] r@[g]@ == grid_points(grid_view(blocks), g as usize),
{
    let ghost gv = grid_view(blocks);
    let mut v = empty_lists(group_size);
    assert(gv.take(0) =~= Seq::<Seq<Seq<Cell>>>::empty());
    for x in 0..blocks.len()
        invariant
            gv == grid_view(blocks),
            members_below(gv, group_size as int),
            v@.len() == group_size,
            forall|g: int| 0 <= g < group_size ==> #[trigger] v@[g]@ == grid_points(gv.take(x as int), g as usize),
    {
        assert(plane_members_below(gv[x as int], group_size as int));
        collect_plane(&blocks[x], &mut v);
        proof {
            lemma_take_step(gv, x as int);
            assert forall|g: int| 0 <= g < group_size implies #[trigger] v@[g]@ == grid_points(gv.take(x + 1), g as usize) by {
                assert(grid_points(gv.take(x + 1), g as usize) == grid_points(gv.take(x as int), g as usize) + plane_points(gv[x as int], g as usize));
            }
        }
    }
    assert(gv.take(blocks@.len() as int) =~= gv);
    v
}

/// Lists by class, as `blocks_to_points` does, the cells of the plane at first
/// index `depth`.
pub fn slice_points(blocks: &Block<GroupList>, depth: usize, group_size: usize) -> (r: Vec<Vec<Point>>)
    requires
        depth < blocks@.len(),
        members_below(grid_view(*blocks), group_size as int),
    ensures
        r@.len() == group_size,
        forall|g: int| 0 <= g < group_size ==> #[trigger] r@[g]@ == plane_points(grid_view(*blocks)[depth as int], g as usize),
{
    let mut v = empty_lists(group_size);
    assert(plane_members_below(grid_view(*blocks)[depth as int], group_size as int));
    collect_plane(&blocks[depth], &mut v);
    proof {
        assert forall|g: int| 0 <= g < group_size implies #[trigger] v@[g]@ == plane_points(grid_view(*blocks)[depth as int], g as usize) by {
            assert(Seq::<Point>::empty() + plane_points(grid_view(*blocks)[depth as int], g as usize) =~= plane_points(grid_view(*blocks)[depth as int], g as usize));
        }
    }
    v
}

proof fn lemma_lowest_in(s: Seq<usize>)
    requires
        s.len() > 0,
    ensures
        exists|k: int| 0 <= k < s.len() && s[k] == lowest(s),
        forall|k: int| 0 <= k < s.len() ==> lowest(s) <= #[trigger] s[k],
    decreases s.len(),
{
    if s.len() > 1 {
        lemma_lowest_in(s.drop_last());
        let k = choose|k: int| 0 <= k < s.drop_last().len() && s.drop_last()[k] == lowest(s.drop_last());
        if s.last() < lowest(s.drop_last()) {
            assert(s[s.len() - 1] == lowest(s));
        } else {
            assert(s[k] == lowest(s));
        }
        assert forall|k: int| 0 <= k < s.len() implies lowest(s) <= #[trigger] s[k] by {
            if k < s.len() - 1 {
                assert(s[k] == s.drop_last()[k]);
            }
        }
    } else {
        assert(s[0] == lowest(s));
    }
}


proof fn lemma_row_points_contains(row: Seq<Cell>, g: usize, p: Point)
    ensures
        row_points(row, g).contains(p) <==> exists|z: int|
            0 <= z < row.len() && reported_class(#[trigger] row[z]) == Some(g) && cell_point(row[z]) == p,
    decreases row.len(),
{
    if row.len() > 0 {
        let init = row.drop_last();
        lemma_row_points_contains(init, g, p);
        if row_points(row, g).contains(p) {
            let i = choose|i: int| 0 <= i < row_points(row, g).len() && row_points(row, g)[i] == p;
            if reported_class(row.last()) == Some(g) && i == row_points(init, g).len() {
                assert(row[row.len() - 1] == row.last());
            } else {
                assert(row_points(init, g)[i] == p);
                let z = choose|z: int|
                    0 <= z < init.len() && reported_class(#[trigger] init[z]) == Some(g) && cell_point(init[z]) == p;
                assert(row[z] == init[z]);
            }
        }
        if exists|z: int| 0 <= z < row.len() && reported_class(#[trigger] row[z]) == Some(g) && cell_point(row[z]) == p {
            let z = choose|z: int| 0 <= z < row.len() && reported_class(#[trigger] row[z]) == Some(g) && cell_point(row[z]) == p;
            if z == row.len() - 1 {
                assert(row_points(row, g)[row_points(init, g).len() as int] == p);
            } else {
                assert(init[z] == row[z]);
                let i = choose|i: int| 0 <= i < row_points(init, g).len() && row_points(init, g)[i] == p;
                assert(row_points(row, g)[i] == p);
            }
        }
    }
}

proof fn lemma_plane_points_contains(plane: Seq<Seq<Cell>>, g: usize, p: Point)
    ensures
        plane_points(plane, g).contains(p) <==> exists|y: int, z: int|
            0 <= y < plane.len() && 0 <= z < plane[y].len() && reported_class(#[trigger] plane[y][z]) == Some(g)
                && cell_point(plane[y][z]) == p,
    decreases plane.len(),
{
    if plane.len() > 0 {
        let init = plane.drop_last();
        let last = plane.last();
        lemma_plane_points_contains(init, g, p);
        lemma_row_points_contains(last, g, p);
        let a = plane_points(init, g);
        let b = row_points(last, g);
        if (a + b).contains(p) {
            let i = choose|i: int| 0 <= i < (a + b).len() && (a + b)[i] == p;
            if i < a.len() {
                assert(a[i] == p);
                let (y, z) = choose|y: int, z: int|
                    0 <= y < init.len() && 0 <= z < init[y].len() && reported_class(#[trigger] init[y][z]) == Some(g)
                        && cell_point(init[y][z]) == p;
                assert(plane[y][z] == init[y][z]);
            } else {
                assert(b[i - a.len()] == p);
                let z = choose|z: int| 0 <= z < last.len() && reported_class(#[trigger] last[z]) == Some(g) && cell_point(last[z]) == p;
                assert(plane[plane.len() - 1][z] == last[z]);
            }
        }
        if exists|y: int, z: int|
            0 <= y < plane.len() && 0 <= z < plane[y].len() && reported_class(#[trigger] plane[y][z]) == Some(g)
                && cell_point(plane[y][z]) == p {
            let (y, z) = choose|y: int, z: int|
                0 <= y < plane.len() && 0 <= z < plane[y].len() && reported_class(#[trigger] plane[y][z]) == Some(g)
                    && cell_point(plane[y][z]) == p;
            if y == plane.len() - 1 {
                assert(last[z] == plane[y][z]);
                let i = choose|i: int| 0 <= i < b.len() && b[i] == p;
                assert((a + b)[a.len() + i] == p);
            } else {
                assert(init[y][z] == plane[y][z]);
                let i = choose|i: int| 0 <= i < a.len() && a[i] == p;
                assert((a + b)[i] == p);
            }
        }
    }
}

proof fn lemma_grid_points_contains(grid: Grid, g: usize, p: Point)
    ensures
        grid_points(grid, g).contains(p) <==> exists|x: int, y: int, z: int|
            0 <= x < grid.len() && 0 <= y < grid[x].len() && 0 <= z < grid[x][y].len()
                && reported_class(#[trigger] grid[x][y][z]) == Some(g) && cell_point(grid[x][y][z]) == p,
    decreases grid.len(),
{
    if grid.len() > 0 {
        let init = grid.drop_last();
        let last = grid.last();
        lemma_grid_points_contains(init, g, p);
        lemma_plane_points_contains(last, g, p);
        let a = grid_points(init, g);
        let b = plane_points(last, g);
        if (a + b).contains(p) {
            let i = choose|i: int| 0 <= i < (a + b).len() && (a + b)[i] == p;
            if i < a.len() {
                assert(a[i] == p);
                let (x, y, z) = choose|x: int, y: int, z: int|
                    0 <= x < init.len() && 0 <= y < init[x].len() && 0 <= z < init[x][y].len()
                        && reported_class(#[trigger] init[x][y][z]) == Some(g) && cell_point(init[x][y][z]) == p;
                assert(grid[x][y][z] == init[x][y][z]);
            } else {
                assert(b[i - a.len()] == p);
                let (y, z) = choose|y: int, z: int|
                    0 <= y < last.len() && 0 <= z < last[y].len() && reported_class(#[trigger] last[y][z]) == Some(g)
                        && cell_point(last[y][z]) == p;
                assert(grid[grid.len() - 1][y][z] == last[y][z]);
            }
        }
        if exists|x: int, y: int, z: int|
            0 <= x < grid.len() && 0 <= y < grid[x].len() && 0 <= z < grid[x][y].len()
                && reported_class(#[trigger] grid[x][y][z]) == Some(g) && cell_point(grid[x][y][z]) == p {
            let (x, y, z) = choose|x: int, y: int, z: int|
                0 <= x < grid.len() && 0 <= y < grid[x].len() && 0 <= z < grid[x][y].len()
                    && reported_class(#[trigger] grid[x][y][z]) == Some(g) && cell_point(grid[x][y][z]) == p;
            if x == grid.len() - 1 {
                assert(last[y][z] == grid[x][y][z]);
                let i = choose|i: int| 0 <= i < b.len() && b[i] == p;
                assert((a + b)[a.len() + i] == p);
            } else {
                assert(init[x][y][z] == grid[x][y][z]);
                let i = choose|i: int| 0 <= i < a.len() && a[i] == p;
                assert((a + b)[i] == p);
            }
        }
    }
}

/// No position is listed by two different classes.
pub open spec fn lists_disjoint(lists: Seq<Seq<Point>>) -> bool {
    forall|m: int, n: int, p: Point|
        0 <= m < lists.len() && 0 <= n < lists.len() && m != n && #[trigger] lists[m].contains(p)
            ==> !#[trigger] lists[n].contains(p)
}

proof fn lemma_last_list_with_some(lists: Seq<Seq<Point>>, p: Point, n: int)
    requires
        0 <= n < lists.len(),
        lists[n].contains(p),
    ensures
        last_list_with(lists, p) is Some,
    decreases lists.len(),
{
    if !lists.last().contains(p) {
        assert(lists.drop_last()[n] == lists[n]);
        lemma_last_list_with_some(lists.drop_last(), p, n);
    }
}

/// `p` comes before `q` in `x`, then `y`, then `z` order.
pub open spec fn lex_lt(p: Point, q: Point) -> bool {
    p.x < q.x || (p.x == q.x && (p.y < q.y || (p.y == q.y && p.z < q.z)))
}

pub open spec fn lex_sorted(s: Seq<Point>) -> bool {
    forall|i: int, j: int| 0 <= i < j < s.len() ==> #[trigger] lex_lt(s[i], s[j])
}

/// The present cells of the row stand at `(x, y, z)`, `z` their index.
pub open spec fn row_at(row: Seq<Cell>, x: int, y: int) -> bool {
    forall|z: int| 0 <= z < row.len() && (#[trigger] row[z]) is Some ==> is_at(cell_point(row[z]), x, y, z)
}

proof fn lemma_row_points_sorted(row: Seq<Cell>, x: int, y: int, g: usize)
    requires
        row_at(row, x, y),
    ensures
        lex_sorted(row_points(row, g)),
        forall|i: int|
            0 <= i < row_points(row, g).len() ==> (#[trigger] row_points(row, g)[i]).x == x
                && row_points(row, g)[i].y == y && row_points(row, g)[i].z < row.len(),
    decreases row.len(),
{
    if row.len() > 0 {
        let init = row.drop_last();
        assert(row_at(init, x, y)) by {
            assert forall|z: int| 0 <= z < init.len() && (#[trigger] init[z]) is Some implies is_at(
                cell_point(init[z]),
                x,
                y,
                z,
            ) by {
                assert(init[z] == row[z]);
            }
        }
        lemma_row_points_sorted(init, x, y, g);
        assert(row[row.len() - 1] == row.last());
    }
}

proof fn lemma_plane_points_sorted(plane: Seq<Seq<Cell>>, x: int, g: usize)
    requires
        forall|y: int| 0 <= y < plane.len() ==> row_at(#[trigger] plane[y], x, y),
    ensures
        lex_sorted(plane_points(plane, g)),
        forall|i: int|
            0 <= i < plane_points(plane, g).len() ==> (#[trigger] plane_points(plane, g)[i]).x == x
                && plane_points(plane, g)[i].y < plane.len(),
    decreases plane.len(),
{
    if plane.len() > 0 {
        let init = plane.drop_last();
        let y = plane.len() - 1;
        assert forall|k: int| 0 <= k < init.len() implies row_at(#[trigger] init[k], x, k) by {
            assert(init[k] == plane[k]);
        }
        lemma_plane_points_sorted(init, x, g);
        assert(row_at(plane[y], x, y));
        lemma_row_points_sorted(plane.last(), x, y, g);
        let a = plane_points(init, g);
        let b = row_points(plane.last(), g);
        assert forall|i: int, j: int| 0 <= i < j < (a + b).len() implies #[trigger] lex_lt((a + b)[i], (a + b)[j]) by {
            if j < a.len() {
                assert(lex_lt(a[i], a[j]));
            } else if i >= a.len() {
                assert(lex_lt(b[i - a.len()], b[j - a.len()]));
            } else {
                assert(a[i].y < y);
                assert(b[j - a.len()].y == y);
            }
        }
        assert forall|i: int| 0 <= i < (a + b).len() implies (#[trigger] (a + b)[i]).x == x && (a + b)[i].y
            < plane.len() by {
            if i < a.len() {
                assert(a[i].x == x);
            } else {
                assert(b[i - a.len()].x == x);
            }
        }
    }
}

proof fn lemma_grid_points_sorted(grid: Grid, g: usize)
    requires
        forall|x: int, y: int|
            0 <= x < grid.len() && 0 <= y < grid[x].len() ==> row_at(#[trigger] grid[x][y], x, y),
    ensures
        lex_sorted(grid_points(grid, g)),
        forall|i: int| 0 <= i < grid_points(grid, g).len() ==> (#[trigger] grid_points(grid, g)[i]).x < grid.len(),
    decreases grid.len(),
{
    if grid.len() > 0 {
        let init = grid.drop_last();
        let x = grid.len() - 1;
        assert forall|a: int, b: int| 0 <= a < init.len() && 0 <= b < init[a].len() implies row_at(
            #[trigger] init[a][b],
            a,
            b,
        ) by {
            assert(init[a] == grid[a]);
        }
        lemma_grid_points_sorted(init, g);
        assert forall|y: int| 0 <= y < grid.last().len() implies row_at(#[trigger] grid.last()[y], x, y) by {
            assert(grid.last() == grid[x]);
            assert(row_at(grid[x][y], x, y));
        }
        lemma_plane_points_sorted(grid.last(), x, g);
        let a = grid_points(init, g);
        let b = plane_points(grid.last(), g);
        assert forall|i: int, j: int| 0 <= i < j < (a + b).len() implies #[trigger] lex_lt((a + b)[i], (a + b)[j]) by {
            if j < a.len() {
                assert(lex_lt(a[i], a[j]));
            } else if i >= a.len() {
                assert(lex_lt(b[i - a.len()], b[j - a.len()]));
            } else {
                assert(a[i].x < x);
                assert(b[j - a.len()].x == x);
            }
        }
        assert forall|i: int| 0 <= i < (a + b).len() implies (#[trigger] (a + b)[i]).x < grid.len() by {
            if i < a.len() {
                assert(a[i].x < x);
            } else {
                assert(b[i - a.len()].x == x);
            }
        }
    }
}

proof fn lemma_lex_sorted_no_duplicates(s: Seq<Point>)
    requires
        lex_sorted(s),
    ensures
        s.no_duplicates(),
{
    assert forall|i: int, j: int| 0 <= i < s.len() && 0 <= j < s.len() && i != j implies s[i] != s[j] by {
        if i < j {
            assert(lex_lt(s[i], s[j]));
        } else {
            assert(lex_lt(s[j], s[i]));
        }
    }
}

/// Writing disjoint, in-extent position lists into a grid and listing that
/// grid by class gives back, for each class, the positions it listed, each
/// once.
pub proof fn lemma_round_trip(rows: usize, columns: usize, height: usize, lists: Seq<Seq<Point>>)
    requires
        lists_in_extent(lists, rows as int, columns as int, height as int),
        lists_disjoint(lists),
        lists.len() <= usize::MAX,
    ensures
        members_below(listed_grid(rows as int, columns as int, height as int, lists), lists.len() as int),
        forall|g: usize|
            g < lists.len() ==> (#[trigger] grid_points(
                listed_grid(rows as int, columns as int, height as int, lists),
                g,
            )).to_set() == lists[g as int].to_set(),
        forall|g: usize|
            g < lists.len() ==> (#[trigger] grid_points(
                listed_grid(rows as int, columns as int, height as int, lists),
                g,
            )).no_duplicates(),
{
    let grid = listed_grid(rows as int, columns as int, height as int, lists);
    assert forall|x: int, y: int| 0 <= x < grid.len() && 0 <= y < grid[x].len() implies row_at(
        #[trigger] grid[x][y],
        x,
        y,
    ) by {
        assert forall|z: int| 0 <= z < grid[x][y].len() && (#[trigger] grid[x][y][z]) is Some implies is_at(
            cell_point(grid[x][y][z]),
            x,
            y,
            z,
        ) by {
            assert(grid[x][y][z] == listed_cell(lists, x, y, z));
        }
    }
    assert forall|g: usize| g < lists.len() implies (#[trigger] grid_points(grid, g)).no_duplicates() by {
        lemma_grid_points_sorted(grid, g);
        lemma_lex_sorted_no_duplicates(grid_points(grid, g));
    }
    assert forall|x: int, y: int, z: int, k: int|
        0 <= x < grid.len() && 0 <= y < grid[x].len() && 0 <= z < grid[x][y].len()
            && grid[x][y][z] is Some && 0 <= k < cell_members(grid[x][y][z]).len()
        implies #[trigger] cell_members(grid[x][y][z])[k] < lists.len() by {
        let p = Point { x: x as u16, y: y as u16, z: z as u16 };
        lemma_last_list_with_bound(lists, p);
    }
    assert forall|g: usize| g < lists.len() implies (#[trigger] grid_points(grid, g)).to_set()
        == lists[g as int].to_set() by {
        assert forall|p: Point| grid_points(grid, g).to_set().contains(p) <==> lists[g as int].to_set().contains(p) by {
            lemma_grid_points_contains(grid, g, p);
            lemma_last_list_with_bound(lists, p);
            if lists[g as int].contains(p) {
                lemma_last_list_with_some(lists, p, g as int);
                let j = choose|j: int| 0 <= j < lists[g as int].len() && lists[g as int][j] == p;
                assert(in_extent(lists[g as int][j].x as int, lists[g as int][j].y as int, lists[g as int][j].z as int, rows as int, columns as int, height as int));
                let c = grid[p.x as int][p.y as int][p.z as int];
                assert(c == listed_cell(lists, p.x as int, p.y as int, p.z as int));
                assert(seq![g].drop_last() =~= Seq::<usize>::empty());
                assert(reported_class(c) == Some(g));
                assert(grid_points(grid, g).contains(p));
            }
            if grid_points(grid, g).contains(p) {
                let (x, y, z) = choose|x: int, y: int, z: int|
                    0 <= x < grid.len() && 0 <= y < grid[x].len() && 0 <= z < grid[x][y].len()
                        && reported_class(#[trigger] grid[x][y][z]) == Some(g) && cell_point(grid[x][y][z]) == p;
                let q = Point { x: x as u16, y: y as u16, z: z as u16 };
                assert(grid[x][y][z] == listed_cell(lists, x, y, z));
                assert(0 <= x <= u16::MAX && 0 <= y <= u16::MAX && 0 <= z <= u16::MAX);
                lemma_last_list_with_bound(lists, q);
                let n = last_list_with(lists, q)->Some_0;
                assert(grid[x][y][z] == Some((q, seq![n as usize])));
                assert(q == p);
                assert(lowest(seq![n as usize]) == n as usize);
                assert(lists[g as int].contains(p));
            }
            assert(grid_points(grid, g).to_set().contains(p) == grid_points(grid, g).contains(p));
            assert(lists[g as int].to_set().contains(p) == lists[g as int].contains(p));
        }
        assert(grid_points(grid, g).to_set() =~= lists[g as int].to_set());
    }
}

} // verus!

use vlung_analysis::filter::{closing_block, diation_block, erosion_block, neighborhood, opening_block};
use vlung_analysis::grid::{gen_blocks, Block, GroupList};
use vlung_analysis::point::Point;

#[test]
fn check_neighborhood_1() {
    let rows = 4;
    let columns = 4;
    let height = 5;
    let mut gen = neighborhood(rows, columns, height, &Point::new(0, 0, 0));
    let mut expectation = vec![
        Point::new(0, 0, 1),
        Point::new(0, 1, 0),
        Point::new(1, 0, 0),
    ];
    gen.sort();
    expectation.sort();
    assert_eq!(gen, expectation);
}

#[test]
fn check_neighborhood_2() {
    let rows = 4;
    let columns = 4;
    let height = 5;
    let mut gen = neighborhood(rows, columns, height, &Point::new(1, 1, 1));
    let mut expectation = vec![
        Point::new(1, 1, 2),
        Point::new(1, 1, 0),
        Point::new(1, 2, 1),
        Point::new(1, 0, 1),
        Point::new(2, 1, 1),
        Point::new(0, 1, 1),
    ];
    gen.sort();
    expectation.sort();
    assert_eq!(gen, expectation);
}

#[test]
fn check_neighborhood_3() {
    let rows = 4;
    let columns = 4;
    let height = 5;
    let mut gen = neighborhood(rows, columns, height, &Point::new(3, 3, 1));
    let mut expectation = vec![
        Point::new(3, 3, 0),
        Point::new(3, 3, 2),
        Point::new(3, 2, 1),
        Point::new(2, 3, 1),
    ];
    gen.sort();
    expectation.sort();
    assert_eq!(gen, expectation);
}

#[test]
fn neighborhood_of_far_corner() {
    let mut gen = neighborhood(4, 4, 5, &Point::new(3, 3, 4));
    gen.sort();
    assert_eq!(
        gen,
        vec![Point::new(2, 3, 4), Point::new(3, 2, 4), Point::new(3, 3, 3)]
    );
}

#[test]
fn neighborhood_of_single_cell_grid_is_empty() {
    assert!(neighborhood(1, 1, 1, &Point::new(0, 0, 0)).is_empty());
}

#[test]
fn erosion_of_isolated_cell_floods_to_every_class() {
    let b = gen_blocks(4, 4, 5, &[vec![], vec![Point::new(0, 0, 0)], vec![]]);
    let e = erosion_block(4, 4, 5, &b, 3);
    assert_eq!(e[0][0][0], Some((Point::new(0, 0, 0), vec![0, 1, 2])));
    for x in 0..4 {
        for y in 0..4 {
            for z in 0..5 {
                if (x, y, z) != (0, 0, 0) {
                    assert_eq!(e[x][y][z], None);
                }
            }
        }
    }
}

#[test]
fn erosion_ignores_empty_neighbours() {
    let b: Block<GroupList> = vec![vec![vec![
        Some((Point::new(0, 0, 0), vec![0, 1])),
        Some((Point::new(0, 0, 1), vec![])),
        Some((Point::new(0, 0, 2), vec![1])),
    ]]];
    let e = erosion_block(1, 1, 3, &b, 2);
    assert_eq!(e[0][0][0], Some((Point::new(0, 0, 0), vec![0, 1])));
    assert_eq!(e[0][0][1], Some((Point::new(0, 0, 1), vec![1])));
    assert_eq!(e[0][0][2], Some((Point::new(0, 0, 2), vec![0, 1])));
}

#[test]
fn dilation_unions_neighbours_on_a_line() {
    let b: Block<GroupList> = vec![
        vec![vec![Some((Point::new(0, 0, 0), vec![0]))]],
        vec![vec![Some((Point::new(1, 0, 0), vec![0, 2]))]],
        vec![vec![Some((Point::new(2, 0, 0), vec![1]))]],
    ];
    let d = diation_block(3, 1, 1, &b);
    assert_eq!(d[0][0][0], Some((Point::new(0, 0, 0), vec![0, 2])));
    assert_eq!(d[1][0][0], Some((Point::new(1, 0, 0), vec![0, 1])));
    assert_eq!(d[2][0][0], Some((Point::new(2, 0, 0), vec![0, 2])));
}

#[test]
fn dilation_keeps_a_class_shared_along_a_line() {
    let b = gen_blocks(3, 1, 1, &[vec![Point::new(0, 0, 0), Point::new(1, 0, 0), Point::new(2, 0, 0)]]);
    let d = diation_block(3, 1, 1, &b);
    for x in 0..3 {
        assert_eq!(d[x][0][0], Some((Point::new(x as u16, 0, 0), vec![0])));
    }
}

#[test]
fn dilation_makes_every_cell_present() {
    let b = gen_blocks(3, 1, 1, &[vec![Point::new(1, 0, 0)]]);
    let d = diation_block(3, 1, 1, &b);
    assert_eq!(d[0][0][0], Some((Point::new(0, 0, 0), vec![0])));
    assert_eq!(d[1][0][0], Some((Point::new(1, 0, 0), vec![])));
    assert_eq!(d[2][0][0], Some((Point::new(2, 0, 0), vec![0])));
}

fn single_cell_grid() -> Block<GroupList> {
    gen_blocks(4, 4, 5, &[vec![], vec![Point::new(0, 0, 0)], vec![]])
}

#[test]
fn dilation_of_single_cell_spreads_to_its_neighbours() {
    let d = diation_block(4, 4, 5, &single_cell_grid());
    assert_eq!(d[0][0][0], Some((Point::new(0, 0, 0), vec![])));
    assert_eq!(d[1][0][0], Some((Point::new(1, 0, 0), vec![1])));
    assert_eq!(d[0][1][0], Some((Point::new(0, 1, 0), vec![1])));
    assert_eq!(d[0][0][1], Some((Point::new(0, 0, 1), vec![1])));
    assert_eq!(d[3][3][4], Some((Point::new(3, 3, 4), vec![])));
    for x in 0..4 {
        for y in 0..4 {
            for z in 0..5 {
                assert!(d[x][y][z].is_some());
            }
        }
    }
}

#[test]
fn closing_of_single_cell() {
    let c = closing_block(4, 4, 5, &single_cell_grid(), 3, 1);
    assert_eq!(c[0][0][0], Some((Point::new(0, 0, 0), vec![1])));
    assert_eq!(c[1][0][0], Some((Point::new(1, 0, 0), vec![0, 1, 2])));
    assert_eq!(c[3][3][4], Some((Point::new(3, 3, 4), vec![0, 1, 2])));
}

#[test]
fn opening_of_single_cell_fills_the_grid() {
    let o = opening_block(4, 4, 5, &single_cell_grid(), 3, 1);
    assert_eq!(o[0][0][0], Some((Point::new(0, 0, 0), vec![])));
    assert_eq!(o[1][0][0], Some((Point::new(1, 0, 0), vec![0, 1, 2])));
    assert_eq!(o[3][3][4], Some((Point::new(3, 3, 4), vec![])));
}

fn cuboid_with_noise() -> (Vec<Vec<Point>>, usize) {
    let n: u16 = 7;
    let mut background = Vec::new();
    let mut tissue = Vec::new();
    for x in 0..n {
        for y in 0..n {
            for z in 0..n {
                let in_cube = (2..=4).contains(&x) && (2..=4).contains(&y) && (1..=5).contains(&z);
                if in_cube || (x, y, z) == (0, 6, 6) {
                    tissue.push(Point::new(x, y, z));
                } else {
                    background.push(Point::new(x, y, z));
                }
            }
        }
    }
    (vec![background, tissue], n as usize)
}

#[test]
fn opening_stays_within_the_cuboid_and_drops_noise() {
    let (lists, n) = cuboid_with_noise();
    let b = gen_blocks(n, n, n, &lists);
    let o = opening_block(n, n, n, &b, 2, 1);
    let mut tissue_after = 0;
    for x in 0..n {
        for y in 0..n {
            for z in 0..n {
                let (p, members) = o[x][y][z].clone().unwrap();
                assert_eq!(p, Point::new(x as u16, y as u16, z as u16));
                if members.contains(&1) {
                    tissue_after += 1;
                    assert!(lists[1].contains(&p));
                    assert_ne!(p, Point::new(0, 6, 6));
                }
            }
        }
    }
    assert!(tissue_after > 0);
}

#[test]
fn opening_and_closing_with_no_pass_copy_the_grid() {
    let (lists, n) = cuboid_with_noise();
    let b = gen_blocks(n, n, n, &lists);
    assert_eq!(opening_block(n, n, n, &b, 2, 0), b);
    assert_eq!(closing_block(n, n, n, &b, 2, 0), b);
}

#[test]
fn closing_is_dilation_then_erosion() {
    let (lists, n) = cuboid_with_noise();
    let b = gen_blocks(n, n, n, &lists);
    let expected = erosion_block(n, n, n, &diation_block(n, n, n, &b), 2);
    assert_eq!(closing_block(n, n, n, &b, 2, 1), expected);
    let expected_open = diation_block(n, n, n, &erosion_block(n, n, n, &b, 2));
    assert_eq!(opening_block(n, n, n, &b, 2, 1), expected_open);
}

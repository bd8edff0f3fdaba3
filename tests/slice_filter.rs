use vlung_analysis::point::Point;
use vlung_analysis::slice_filter::{closing, diation, erosion, neighbors_2d, opening};

fn pts(v: &[(u16, u16)], z: u16) -> Vec<Point> {
    v.iter().map(|&(x, y)| Point::new(x, y, z)).collect()
}

#[test]
fn neighbors_2d_of_corner_and_centre() {
    let mut c = neighbors_2d(3, 3, 0, 0);
    c.sort();
    assert_eq!(c, vec![(0, 1), (1, 0), (1, 1)]);
    assert_eq!(neighbors_2d(3, 3, 1, 1).len(), 8);
}

#[test]
fn slice_dilation_paints_around_a_point() {
    let got = diation(3, 3, 4, &pts(&[(1, 1)], 0));
    assert_eq!(
        got,
        pts(&[(0, 0), (0, 1), (0, 2), (1, 0), (1, 2), (2, 0), (2, 1), (2, 2)], 4)
    );
}

#[test]
fn slice_erosion_keeps_cells_whose_neighbours_are_all_painted() {
    let all = pts(&[(0, 0), (0, 1), (0, 2), (1, 0), (1, 1), (1, 2), (2, 0), (2, 1), (2, 2)], 0);
    assert_eq!(erosion(3, 3, 0, &all), all);
    let mut holed = all.clone();
    holed.retain(|p| !(p.x == 0 && p.y == 0));
    assert_eq!(
        erosion(3, 3, 0, &holed),
        pts(&[(0, 0), (0, 2), (1, 2), (2, 0), (2, 1), (2, 2)], 0)
    );
}

#[test]
fn slice_opening_and_closing() {
    let data = pts(&[(1, 1)], 0);
    assert_eq!(opening(3, 3, 0, &data, 0), data);
    assert_eq!(opening(3, 3, 0, &data, 1), vec![]);
    let ring = pts(&[(0, 0), (0, 1), (0, 2), (1, 0), (1, 2), (2, 0), (2, 1), (2, 2)], 0);
    assert_eq!(closing(3, 3, 0, &data, 1), pts(&[(1, 1)], 0));
    assert_eq!(diation(3, 3, 0, &data), ring);
}

use vlung_analysis::intensity::{
    calc_center, calc_distance, calc_eq, centers_from, default_centers, grid_height, masked_intensity,
    points_of, sample_at, OUTSIDE_INTENSITY,
};
use vlung_analysis::point::{Center, Data, Point};

fn d(v: i16) -> Data {
    Data { point: Point::new(0, 0, 0), data: v }
}

#[test]
fn distance_of_same_sign_intensities() {
    let c = Center { point: None, data: -990 };
    assert_eq!(calc_distance(&c, &d(-750)), 240);
    let c = Center { point: None, data: 300 };
    assert_eq!(calc_distance(&c, &d(34)), 266);
}

#[test]
fn distance_of_mixed_sign_intensities_is_taken_after_widening() {
    let c = Center { point: None, data: -990 };
    assert_eq!(calc_distance(&c, &d(34)), 18446744073709550592);
}

#[test]
fn center_is_mean_rounded_toward_zero() {
    assert_eq!(calc_center(&[]), None);
    assert_eq!(calc_center(&[d(1), d(2)]), Some(Center { point: None, data: 1 }));
    assert_eq!(calc_center(&[d(-1), d(-2)]), Some(Center { point: None, data: -1 }));
    assert_eq!(
        calc_center(&[d(i16::MAX), d(i16::MAX), d(i16::MAX)]),
        Some(Center { point: None, data: i16::MAX })
    );
    assert_eq!(
        calc_center(&[d(i16::MIN), d(i16::MIN)]),
        Some(Center { point: None, data: i16::MIN })
    );
}

#[test]
fn groups_agree_on_equal_means() {
    assert!(calc_eq(&[], &[]));
    assert!(!calc_eq(&[d(1)], &[]));
    assert!(!calc_eq(&[], &[d(1)]));
    assert!(calc_eq(&[d(1), d(3)], &[d(2)]));
    assert!(!calc_eq(&[d(1)], &[d(2)]));
}

#[test]
fn default_centers_are_the_five_tissues() {
    let c = default_centers();
    let values: Vec<i16> = c.iter().map(|c| c.data).collect();
    assert_eq!(values, vec![-990, -750, -53, 34, 300]);
    assert!(c.iter().all(|c| c.point.is_none()));
}

#[test]
fn centers_from_given_intensities() {
    assert_eq!(
        centers_from(&[5, -7]),
        vec![Center { point: None, data: 5 }, Center { point: None, data: -7 }]
    );
}

#[test]
fn masking_outside_the_box() {
    assert_eq!(masked_intensity(1, 1, 1, 42, None, None), 42);
    assert_eq!(masked_intensity(1, 1, 1, 42, Some((2, 0, 0)), None), OUTSIDE_INTENSITY);
    assert_eq!(masked_intensity(1, 1, 1, 42, None, Some((5, 5, 0))), OUTSIDE_INTENSITY);
    assert_eq!(masked_intensity(1, 1, 1, 42, Some((1, 1, 1)), Some((1, 1, 1))), 42);
}

#[test]
fn sample_position_from_pixel_index() {
    let s = sample_at(7, 3, 4, 12, None, None);
    assert_eq!(s, Data { point: Point::new(1, 2, 4), data: 12 });
    let s = sample_at(7, 3, 4, 12, Some((2, 0, 0)), None);
    assert_eq!(s.data, OUTSIDE_INTENSITY);
}

#[test]
fn positions_of_groups() {
    let g = vec![vec![Data { point: Point::new(1, 2, 3), data: 5 }], vec![]];
    assert_eq!(points_of(&g), vec![vec![Point::new(1, 2, 3)], vec![]]);
}

#[test]
fn height_is_one_past_the_deepest_slice() {
    assert_eq!(grid_height(&[]), 1);
    assert_eq!(grid_height(&[3, 9, 0]), 10);
}

use vlung_analysis::intensity::{calc_center, calc_distance, calc_eq};
use vlung_analysis::k_means::solve;
use vlung_analysis::point::{Center, Data, Point};

fn sample(x: u16, d: i16) -> Data {
    Data { point: Point::new(x, 0, 0), data: d }
}

#[test]
fn single_centroid_takes_every_sample() {
    let samples = vec![sample(0, -500), sample(1, 40), sample(2, 900)];
    let groups = solve(
        calc_distance,
        calc_center,
        calc_eq,
        vec![Center { point: None, data: 0 }],
        &samples,
    );
    assert_eq!(groups, vec![samples]);
}

#[test]
fn samples_go_to_the_nearest_centroid_first_on_ties() {
    let samples = vec![sample(0, 10), sample(1, 25), sample(2, 15), sample(3, 100)];
    let centers = vec![
        Center { point: None, data: 10 },
        Center { point: None, data: 20 },
        Center { point: None, data: 20 },
    ];
    let groups = solve(calc_distance, calc_center, calc_eq, centers, &samples);
    assert_eq!(
        groups,
        vec![
            vec![sample(0, 10), sample(2, 15)],
            vec![sample(1, 25), sample(3, 100)],
            vec![],
        ]
    );
}

#[test]
fn empty_sample_set_gives_empty_groups() {
    let groups = solve(
        calc_distance,
        calc_center,
        calc_eq,
        vec![Center { point: None, data: 1 }, Center { point: None, data: 2 }],
        &[],
    );
    assert_eq!(groups, vec![vec![], vec![]]);
}

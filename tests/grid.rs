use vlung_analysis::grid::{blocks_to_points, gen_blocks, slice_points, Block, GroupList};
use vlung_analysis::point::Point;

#[test]
fn check_gen_blocks() {
    let data = vec![
        vec![Point::new(2, 2, 2), Point::new(2, 2, 3)],
        vec![Point::new(2, 3, 2)],
    ];
    let rows = 4;
    let columns = 4;
    let height = 5;
    let gen_blocks = gen_blocks(rows, columns, height, &data);
    let blocks: Block<GroupList> = vec![
        // x == 0
        vec![vec![None; height]; columns],
        // x == 1
        vec![vec![None; height]; columns],
        // x == 2
        vec![
            // y == 0
            vec![None; height],
            // y == 1
            vec![None; height],
            // y == 2
            vec![
                None,
                None,
                Some((Point::new(2, 2, 2), vec![0])),
                Some((Point::new(2, 2, 3), vec![0])),
                None,
            ],
            // y == 3
            vec![None, None, Some((Point::new(2, 3, 2), vec![1])), None, None],
        ],
        // x == 3
        vec![vec![None; height]; columns],
    ];
    assert_eq!(gen_blocks, blocks);
}

#[test]
fn check_blocks_to_points_1() {
    let data = vec![
        vec![Point::new(2, 2, 2), Point::new(2, 2, 3)],
        vec![Point::new(2, 3, 2)],
    ];
    let rows = 4;
    let columns = 4;
    let height = 5;
    let group_size = 2;
    let gen = blocks_to_points(gen_blocks(rows, columns, height, &data), group_size);
    assert_eq!(gen, data);
}

#[test]
fn check_blocks_to_points_2() {
    let data = vec![vec![Point::new(0, 0, 0)]];
    let group_size = 1;
    let gen = blocks_to_points(
        vec![vec![vec![Some((Point::new(0, 0, 0), vec![0]))]]],
        group_size,
    );
    assert_eq!(gen, data);
}

#[test]
fn check_blocks_to_points_3() {
    let data = vec![vec![], vec![Point::new(0, 0, 0)]];
    let group_size = 2;
    let gen = blocks_to_points(
        vec![vec![vec![Some((Point::new(0, 0, 0), vec![1]))]]],
        group_size,
    );
    assert_eq!(gen, data);
}

#[test]
fn gen_blocks_later_class_wins() {
    let data = vec![vec![Point::new(0, 1, 0)], vec![Point::new(0, 1, 0)]];
    let b = gen_blocks(1, 2, 1, &data);
    assert_eq!(b[0][0][0], None);
    assert_eq!(b[0][1][0], Some((Point::new(0, 1, 0), vec![1])));
}

#[test]
fn blocks_to_points_uses_lowest_class_and_skips_empty() {
    let blocks: Block<GroupList> = vec![vec![vec![
        Some((Point::new(0, 0, 0), vec![2, 1])),
        Some((Point::new(0, 0, 1), vec![])),
        None,
        Some((Point::new(0, 0, 3), vec![0, 2])),
    ]]];
    let got = blocks_to_points(blocks, 3);
    assert_eq!(
        got,
        vec![vec![Point::new(0, 0, 3)], vec![Point::new(0, 0, 0)], vec![]]
    );
}

#[test]
fn round_trip_of_disjoint_lists() {
    let data = vec![
        vec![Point::new(1, 0, 2), Point::new(0, 0, 0)],
        vec![],
        vec![Point::new(2, 1, 1), Point::new(0, 1, 0), Point::new(2, 0, 0)],
    ];
    let back = blocks_to_points(gen_blocks(3, 2, 3, &data), data.len());
    assert_eq!(back.len(), data.len());
    for (got, want) in back.iter().zip(data.iter()) {
        let mut got = got.clone();
        let mut want = want.clone();
        got.sort();
        want.sort();
        assert_eq!(got, want);
    }
}

#[test]
fn slice_points_reads_one_plane() {
    let data = vec![
        vec![Point::new(0, 0, 0), Point::new(1, 1, 0)],
        vec![Point::new(1, 0, 1)],
    ];
    let b = gen_blocks(2, 2, 2, &data);
    assert_eq!(
        slice_points(&b, 1, 2),
        vec![vec![Point::new(1, 1, 0)], vec![Point::new(1, 0, 1)]]
    );
    assert_eq!(slice_points(&b, 0, 2), vec![vec![Point::new(0, 0, 0)], vec![]]);
}

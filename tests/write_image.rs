use image::Rgb;
use vlung_analysis::point::{Data, Point};
use vlung_analysis::write_image::{class_color, data_to_img, point_to_img};

#[test]
fn classes_are_drawn_in_their_colours() {
    let lists = vec![vec![Point::new(0, 0, 0)], vec![Point::new(1, 0, 0), Point::new(0, 1, 5)]];
    let img = point_to_img(2, 2, &lists).image;
    assert_eq!(img.width(), 2);
    assert_eq!(*img.get_pixel(0, 0), Rgb([0, 255, 0]));
    assert_eq!(*img.get_pixel(1, 0), Rgb([0, 0, 255]));
    assert_eq!(*img.get_pixel(0, 1), Rgb([0, 0, 255]));
    assert_eq!(*img.get_pixel(1, 1), Rgb([0, 0, 0]));
}

#[test]
fn later_class_shows_where_classes_overlap() {
    let mut lists = vec![vec![]; 7];
    lists[2].push(Point::new(0, 0, 0));
    lists[6].push(Point::new(0, 0, 1));
    let img = point_to_img(1, 1, &lists).image;
    assert_eq!(*img.get_pixel(0, 0), Rgb([255, 0, 0]));
}

#[test]
fn samples_are_drawn_by_position() {
    let lists = vec![vec![], vec![], vec![], vec![Data { point: Point::new(1, 1, 0), data: 3 }]];
    let img = data_to_img(2, 2, &lists).image;
    assert_eq!(*img.get_pixel(1, 1), Rgb([255, 0, 255]));
    assert_eq!(*img.get_pixel(0, 0), Rgb([0, 0, 0]));
}

#[test]
fn palette_with_overflow_colour() {
    assert_eq!(class_color(0), (0, 255, 0));
    assert_eq!(class_color(4), (255, 255, 0));
    assert_eq!(class_color(5), (255, 0, 0));
    assert_eq!(class_color(100), (255, 0, 0));
}

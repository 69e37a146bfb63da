use sim_an::images_functions::{mark_coord, surround_pixel, PixelGrid};
use sim_an::instances::{_get_predefined_solution, build_tables, data_file_name, parse_fields};

#[test]
fn surround_marks_the_point_and_greys_black_neighbours() {
    let mut img = PixelGrid { width: 4, height: 4, pixels: vec![[0u8, 0u8, 0u8]; 16] };
    img.pixels[0] = [9, 9, 9];
    surround_pixel(&mut img, 1, 1, [255, 0, 0]);
    assert_eq!(img.pixels[1 * 4 + 1], [255, 0, 0]);
    assert_eq!(img.pixels[0], [9, 9, 9]);
    assert_eq!(img.pixels[2 * 4 + 2], [50, 50, 50]);
    assert_eq!(img.pixels[3 * 4 + 3], [0, 0, 0]);
    assert_eq!(img.pixels[2], [50, 50, 50]);
    assert_eq!(img.pixels[3], [0, 0, 0]);
}

#[test]
fn predefined_solution_is_padded() {
    let s = _get_predefined_solution(vec![3, 1, 2]);
    assert_eq!(s.len(), 260);
    assert_eq!(&s[..4], &[3, 1, 2, 0]);
    assert!(s[3..].iter().all(|&x| x == 0));
}

#[test]
fn data_file_names() {
    assert_eq!(data_file_name(1, 2), "Call_2_Vehicle_1_Custom.txt");
    assert_eq!(data_file_name(5, 18), "Call_18_Vehicle_5.txt");
    assert_eq!(data_file_name(7, 35), "Call_35_Vehicle_7.txt");
    assert_eq!(data_file_name(20, 80), "Call_80_Vehicle_20.txt");
    assert_eq!(data_file_name(40, 130), "Call_130_Vehicle_40.txt");
    assert_eq!(data_file_name(3, 3), "");
}

#[test]
fn coordinates_are_drawn_one_pixel_in_at_their_distance() {
    let mut img = PixelGrid { width: 6, height: 6, pixels: vec![[0u8, 0u8, 0u8]; 36] };
    // (-2, 1) is drawn at column 3, row 2.
    mark_coord(&mut img, [-2, 1], [1, 2, 3]);
    assert_eq!(img.pixels[2 * 6 + 3], [1, 2, 3]);
    assert_eq!(img.pixels[1 * 6 + 2], [50, 50, 50]);
    assert_eq!(img.pixels[0], [0, 0, 0]);
}

#[test]
fn fields_are_read_as_numbers() {
    assert_eq!(parse_fields(b"1, -2 ,30\r"), Some(vec![1, -2, 30]));
    assert_eq!(parse_fields(b"7"), Some(vec![7]));
    assert_eq!(parse_fields(b"-2147483648,2147483647"), Some(vec![i32::MIN, i32::MAX]));
    assert_eq!(parse_fields(b"2147483648"), None);
    assert_eq!(parse_fields(b"1,,2"), None);
    assert_eq!(parse_fields(b"1,x"), None);
    assert_eq!(parse_fields(b"-"), None);
    assert_eq!(parse_fields(b"1 2"), None);
}

#[test]
fn tables_are_built_from_rows() {
    let vehicles = vec![vec![1, 3, 0, 10]];
    let calls = vec![vec![1, 2, 5, 1, 100, 0, 50, 0, 60]];
    let travel = vec![vec![1, 5, 2, 7, 70]];
    let nodes = vec![vec![1, 1, 2, 20, 3, 30]];
    let (v, c, t, n) = build_tables(1, 1, &vehicles, &calls, &travel, &nodes).unwrap();
    assert_eq!(v, vec![[3, 0, 10]]);
    assert_eq!(c, vec![[2, 5, 1, 100, 0, 50, 0, 60]]);
    assert_eq!(t.len(), 39 * 39);
    // The pair (5, 2) is kept with the smaller node first: row 4 + 1 * 39.
    assert_eq!(t[4 + 1 * 39], [5, 2, 7, 70]);
    assert_eq!(t[0], [0, 0, 0, 0]);
    assert_eq!(n, vec![[1, 2, 20, 3, 30]]);
    // A travel row naming node 40 is refused.
    assert!(build_tables(1, 1, &vehicles, &calls, &vec![vec![1, 40, 2, 7, 70]], &nodes).is_none());
    // Too few vehicle rows.
    assert!(build_tables(2, 1, &vehicles, &calls, &travel, &nodes).is_none());
}

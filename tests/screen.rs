use tarkov_lookup::screenshot::{find_top_left_corner, CursorPos, ScreenshotData, BORDER_COLOR};

/// A capture whose pixels are all `fill`, with `border` bytes at the listed pixels.
fn capture(width: usize, height: usize, fill: [u8; 4], marks: &[(usize, usize)]) -> ScreenshotData {
    let border = [0x60, 0x5d, 0x58, 0xff];
    let mut px = Vec::new();
    for y in 0..height {
        for x in 0..width {
            if marks.contains(&(x, y)) {
                px.extend_from_slice(&border);
            } else {
                px.extend_from_slice(&fill);
            }
        }
    }
    ScreenshotData::new(width, height, px).unwrap()
}

#[test]
fn pixel_reads_bytes_first_most_significant() {
    let s = ScreenshotData::new(2, 1, vec![1, 2, 3, 4, 0xaa, 0xbb, 0xcc, 0xdd]).unwrap();
    assert_eq!(s.get_pixel(0, 0), 0x01020304);
    assert_eq!(s.get_pixel(1, 0), 0xaabbccdd);
    assert_eq!(s.width(), 2);
    assert_eq!(s.height(), 1);
}

#[test]
fn capture_needs_four_bytes_a_pixel() {
    assert!(ScreenshotData::new(2, 2, vec![0; 15]).is_none());
    assert!(ScreenshotData::new(2, 2, vec![0; 16]).is_some());
    assert!(ScreenshotData::new(0, 5, Vec::new()).is_some());
}

#[test]
fn border_pixel_has_border_color() {
    let s = capture(1, 1, [0, 0, 0, 0], &[(0, 0)]);
    assert_eq!(s.get_pixel(0, 0), BORDER_COLOR);
}

#[test]
fn corner_is_nearest_border_left_and_above() {
    let s = capture(10, 8, [1, 2, 3, 4], &[(1, 5), (3, 5), (6, 0), (6, 2)]);
    let r = find_top_left_corner(&s, &CursorPos { x: 6, y: 5 });
    assert_eq!(r, Some((3, 2)));
}

#[test]
fn corner_under_cursor_counts() {
    let s = capture(4, 4, [9, 9, 9, 9], &[(2, 2)]);
    assert_eq!(find_top_left_corner(&s, &CursorPos { x: 2, y: 2 }), Some((2, 2)));
}

#[test]
fn corner_missing_in_column_gives_none() {
    let s = capture(6, 6, [0, 0, 0, 0], &[(1, 4)]);
    assert_eq!(find_top_left_corner(&s, &CursorPos { x: 3, y: 4 }), None);
}

#[test]
fn cursor_outside_search_area_gives_none() {
    let s = capture(2, 2, [0, 0, 0, 0], &[]);
    assert_eq!(find_top_left_corner(&s, &CursorPos { x: 1920, y: 0 }), None);
    assert_eq!(find_top_left_corner(&s, &CursorPos { x: 0, y: 1090 }), None);
}

#[test]
fn image_takes_red_green_blue_from_pixel() {
    let s = ScreenshotData::new(2, 1, vec![0x10, 0x20, 0x30, 0xff, 1, 2, 3, 4]).unwrap();
    let canvas = s.to_image().unwrap();
    let img = canvas.image;
    assert_eq!(img.width(), 2);
    assert_eq!(img.height(), 1);
    assert_eq!(img.get_pixel(0, 0).0, [0x30, 0x20, 0x10]);
    assert_eq!(img.get_pixel(1, 0).0, [3, 2, 1]);
}

#[test]
fn image_refused_when_too_wide() {
    let s = ScreenshotData::new(5_000_000_000, 0, Vec::new()).unwrap();
    assert!(s.to_image().is_none());
    let s = ScreenshotData::new(0, 3, Vec::new()).unwrap();
    let img = s.to_image().unwrap().image;
    assert_eq!(img.height(), 3);
}

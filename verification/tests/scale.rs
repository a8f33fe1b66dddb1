use p2p_screenshare::picture::Picture;
use p2p_screenshare::scale::{ScaleLut, Screen};

fn picture(w: u32, h: u32, pixels: Vec<u32>) -> Picture {
    Picture { pixels, w, h }
}

#[test]
fn tables_of_a_picture_twice_as_large() {
    let lut = ScaleLut::build(2, 1, 8, 6, 8, 4);
    assert_eq!((lut.out_w, lut.out_h, lut.off_x, lut.off_y), (8, 4, 0, 1));
    assert_eq!(lut.x_lut, vec![0, 0, 0, 0, 1, 1, 1, 1]);
    assert_eq!(lut.y_lut, vec![0, 0, 0, 0]);
    assert_eq!((lut.src_w, lut.src_h, lut.dst_w, lut.dst_h), (2, 1, 8, 6));
}

#[test]
fn tables_of_a_picture_that_shrinks() {
    let lut = ScaleLut::build(5, 5, 3, 2, 2, 2);
    assert_eq!((lut.out_w, lut.out_h, lut.off_x, lut.off_y), (2, 2, 0, 0));
    assert_eq!(lut.x_lut, vec![0, 2]);
    assert_eq!(lut.y_lut, vec![0, 2]);
}

#[test]
fn drawing_is_at_least_a_pixel_and_at_most_the_window() {
    let lut = ScaleLut::build(1000, 1, 10, 10, 10, 0);
    assert_eq!((lut.out_w, lut.out_h, lut.off_x, lut.off_y), (10, 1, 0, 4));
    let lut = ScaleLut::build(10, 10, 4, 4, 9, 9);
    assert_eq!((lut.out_w, lut.out_h), (4, 4));
}

#[test]
fn samples_are_ordered_and_inside_the_picture() {
    let lut = ScaleLut::build(1920, 1080, 1366, 768, 1365, 768);
    assert!(lut.x_lut.windows(2).all(|p| p[0] <= p[1]));
    assert!(lut.x_lut.iter().all(|x| *x < 1920));
    assert!(lut.y_lut.iter().all(|y| *y < 1080));
    assert_eq!((lut.x_lut[0], lut.y_lut[767]), (0, 1078));
    let same = ScaleLut::build(7, 3, 20, 20, 7, 3);
    assert_eq!(same.x_lut, vec![0, 1, 2, 3, 4, 5, 6]);
}

#[test]
fn window_is_black_without_a_picture() {
    let mut screen = Screen::new();
    let mut buf = [9u32; 6];
    screen.present(&Picture::none(), 3, 2, 3, 2, &mut buf);
    assert_eq!(buf, [0; 6]);
    assert!(screen.scale_lut.is_none());
}

#[test]
fn picture_of_the_windows_size_is_copied() {
    let mut screen = Screen::new();
    let mut buf = [9u32; 4];
    screen.present(&picture(2, 2, vec![1, 2, 3, 4]), 2, 2, 2, 2, &mut buf);
    assert_eq!(buf, [1, 2, 3, 4]);
    assert!(screen.scale_lut.is_none());
}

#[test]
fn picture_of_another_size_is_centred_between_bars() {
    let mut screen = Screen::new();
    let mut buf = [9u32; 4 * 4];
    screen.present(&picture(2, 1, vec![5, 6]), 4, 4, 4, 2, &mut buf);
    assert_eq!(buf, [
        0, 0, 0, 0,
        5, 5, 6, 6,
        5, 5, 6, 6,
        0, 0, 0, 0,
    ]);
    assert!(screen.scale_lut.is_some());
}

#[test]
fn tables_are_kept_until_the_sizes_change() {
    let mut screen = Screen::new();
    let mut buf = [0u32; 16];
    screen.present(&picture(2, 1, vec![5, 6]), 4, 4, 4, 2, &mut buf);
    let table = screen.scale_lut.as_ref().unwrap().x_lut.as_ptr();
    screen.present(&picture(2, 1, vec![7, 8]), 4, 4, 4, 2, &mut buf);
    assert_eq!(&buf[4..8], &[7, 7, 8, 8]);
    assert_eq!(screen.scale_lut.as_ref().unwrap().x_lut.as_ptr(), table);
    screen.invalidate();
    assert!(screen.scale_lut.is_none());
    screen.present(&picture(1, 1, vec![3]), 4, 4, 4, 4, &mut buf);
    assert_eq!(buf, [3u32; 16]);
    screen.present(&picture(1, 2, vec![3, 4]), 4, 4, 2, 4, &mut buf);
    assert_eq!(buf, [0, 3, 3, 0, 0, 3, 3, 0, 0, 4, 4, 0, 0, 4, 4, 0]);
}

#[test]
fn drawing_has_the_extent_that_is_asked_for() {
    let mut screen = Screen::new();
    let mut buf = [0u32; 16];
    screen.present(&picture(2, 1, vec![5, 6]), 4, 4, 4, 2, &mut buf);
    screen.present(&picture(2, 1, vec![7, 8]), 4, 4, 1, 1, &mut buf);
    let mut wanted = [0u32; 16];
    wanted[5] = 7;
    assert_eq!(buf, wanted);
}

#[test]
fn tables_of_the_windows_size_show_the_picture_itself() {
    let lut = ScaleLut::build(3, 2, 3, 2, 3, 2);
    assert_eq!((lut.off_x, lut.off_y, lut.out_w, lut.out_h), (0, 0, 3, 2));
    assert_eq!(lut.x_lut, vec![0, 1, 2]);
    assert_eq!(lut.y_lut, vec![0, 1]);
}

#[test]
fn window_with_a_zero_side_is_left_alone() {
    let mut screen = Screen::new();
    let mut buf = [9u32; 16];
    screen.present(&picture(2, 1, vec![5, 6]), 4, 4, 4, 2, &mut buf);
    for (w, h) in [(0u32, 4u32), (4, 0), (0, 0)] {
        let mut empty: [u32; 0] = [];
        screen.present(&picture(2, 1, vec![5, 6]), w, h, 1, 1, &mut empty);
        screen.present(&Picture::none(), w, h, 1, 1, &mut empty);
        let lut = screen.scale_lut.as_ref().unwrap();
        assert_eq!((lut.dst_w, lut.dst_h, lut.out_h), (4, 4, 2));
    }
}

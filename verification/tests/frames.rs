use motion_illusion::frame::{crop_square, mat_to_rgb_buffer, pack_rgb, shift_texture, Frame};
use motion_illusion::palette::Bgr;

fn px(v: u8) -> Bgr {
    Bgr { b: v, g: v, r: v }
}

fn grid(width: usize, height: usize) -> Frame {
    let pixels = (0..width * height).map(|k| px(k as u8 + 1)).collect();
    Frame { width, height, pixels }
}

fn at(f: &Frame, x: usize, y: usize) -> Bgr {
    f.pixels[y * f.width + x]
}

#[test]
fn pack_rgb_puts_red_high_and_blue_low() {
    assert_eq!(pack_rgb(Bgr { b: 0x03, g: 0x02, r: 0x01 }), 0x0001_0203);
    assert_eq!(pack_rgb(Bgr { b: 255, g: 255, r: 255 }), 0x00ff_ffff);
    assert_eq!(pack_rgb(Bgr { b: 0, g: 0, r: 0 }), 0);
    assert_eq!(pack_rgb(Bgr { b: 0, g: 0, r: 0x80 }), 0x0080_0000);
}

#[test]
fn packed_word_gives_channels_back() {
    let c = Bgr { b: 17, g: 200, r: 99 };
    let w = pack_rgb(c);
    assert_eq!((w >> 16) & 0xff, 99);
    assert_eq!((w >> 8) & 0xff, 200);
    assert_eq!(w & 0xff, 17);
    assert!(w < 0x100_0000);
}

#[test]
fn rgb_buffer_takes_every_pixel_and_keeps_the_tail() {
    let f = Frame {
        width: 2,
        height: 2,
        pixels: vec![
            Bgr { b: 1, g: 2, r: 3 },
            Bgr { b: 4, g: 5, r: 6 },
            Bgr { b: 7, g: 8, r: 9 },
            Bgr { b: 10, g: 11, r: 12 },
        ],
    };
    let mut buffer = vec![0xdead_beefu32; 6];
    mat_to_rgb_buffer(&f, &mut buffer);
    assert_eq!(
        buffer,
        vec![0x0003_0201, 0x0006_0504, 0x0009_0807, 0x000c_0b0a, 0xdead_beef, 0xdead_beef]
    );
}

#[test]
fn crop_square_takes_the_block_at_the_corner() {
    let f = grid(4, 3);
    let c = crop_square(&f, 1, 1, 2);
    assert_eq!(c.width, 2);
    assert_eq!(c.height, 2);
    assert_eq!(c.pixels, vec![at(&f, 1, 1), at(&f, 2, 1), at(&f, 1, 2), at(&f, 2, 2)]);
}

#[test]
fn crop_square_of_no_side_is_empty() {
    let f = grid(3, 3);
    let c = crop_square(&f, 3, 3, 0);
    assert_eq!(c.width, 0);
    assert!(c.pixels.is_empty());
}

#[test]
fn shift_by_zero_gives_the_texture_back() {
    let t = grid(3, 2);
    let fill = Frame { width: 3, height: 2, pixels: vec![px(0); 6] };
    let s = shift_texture(&t, 0, 0, &fill);
    assert_eq!(s.pixels, t.pixels);
}

#[test]
fn shift_right_and_down_leaves_fill_at_top_left() {
    let t = grid(3, 3);
    let fill = Frame { width: 3, height: 3, pixels: vec![px(0); 9] };
    let s = shift_texture(&t, 1, 1, &fill);
    for y in 0..3 {
        for x in 0..3 {
            let want = if x >= 1 && y >= 1 { at(&t, x - 1, y - 1) } else { px(0) };
            assert_eq!(at(&s, x, y), want, "at ({}, {})", x, y);
        }
    }
}

#[test]
fn shift_left_and_up_leaves_fill_at_bottom_right() {
    let t = grid(3, 3);
    let fill = Frame { width: 3, height: 3, pixels: vec![px(0); 9] };
    let s = shift_texture(&t, -2, -1, &fill);
    for y in 0..3 {
        for x in 0..3 {
            let want = if x < 1 && y < 2 { at(&t, x + 2, y + 1) } else { px(0) };
            assert_eq!(at(&s, x, y), want, "at ({}, {})", x, y);
        }
    }
}

#[test]
fn shift_mixed_directions() {
    let t = grid(4, 3);
    let fill = Frame { width: 4, height: 3, pixels: vec![px(0); 12] };
    let s = shift_texture(&t, 1, -1, &fill);
    for y in 0..3 {
        for x in 0..4 {
            let want = if x >= 1 && y < 2 { at(&t, x - 1, y + 1) } else { px(0) };
            assert_eq!(at(&s, x, y), want, "at ({}, {})", x, y);
        }
    }
}

#[test]
fn shift_past_the_edge_gives_the_fill() {
    let t = grid(3, 3);
    let fill = grid(5, 4);
    assert_eq!(shift_texture(&t, 3, 0, &fill).pixels, fill.pixels);
    assert_eq!(shift_texture(&t, 0, -7, &fill).pixels, fill.pixels);
    assert_eq!(shift_texture(&t, i32::MIN, i32::MIN, &fill).pixels, fill.pixels);
}

#[test]
fn shift_onto_a_larger_fill_keeps_the_rest_of_it() {
    let t = grid(2, 2);
    let fill = Frame { width: 3, height: 3, pixels: vec![px(0); 9] };
    let s = shift_texture(&t, 1, 0, &fill);
    assert_eq!(s.width, 3);
    assert_eq!(s.height, 3);
    assert_eq!(at(&s, 1, 0), at(&t, 0, 0));
    assert_eq!(at(&s, 1, 1), at(&t, 0, 1));
    assert_eq!(at(&s, 2, 1), px(0));
    assert_eq!(at(&s, 0, 0), px(0));
    assert_eq!(at(&s, 1, 2), px(0));
}

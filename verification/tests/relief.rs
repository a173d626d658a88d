use motion_illusion::frame::Frame;
use motion_illusion::palette::{noise_palette, white_color, Bgr};
use motion_illusion::relief::{
    allowed_replacements, enforce_noise_rule, motion_accepts, relief_neighbours, relieve_pixel,
    relieve_pixel_with, CERTAIN_THRESHOLD,
};

const BLACK: Bgr = Bgr { b: 0, g: 0, r: 0 };
const BLUE: Bgr = Bgr { b: 255, g: 0, r: 0 };
const GREEN: Bgr = Bgr { b: 0, g: 255, r: 0 };
const ALWAYS: u32 = 1 << 24;

#[test]
fn motion_threshold_compares_the_top_bits() {
    assert!(motion_accepts(255, 1));
    assert!(!motion_accepts(256, 1));
    assert!(motion_accepts(u32::MAX, ALWAYS));
    assert!(!motion_accepts(0, 0));
    assert!(motion_accepts(0x0100_00ff, 0x0001_0001));
    assert!(!motion_accepts(0x0100_0100, 0x0001_0001));
}

#[test]
fn replacements_avoid_non_white_neighbours() {
    let all = allowed_replacements(white_color(), white_color());
    assert_eq!(all, noise_palette());
    let some = allowed_replacements(BLACK, BLUE);
    assert_eq!(some.len(), 14);
    assert!(!some.contains(&BLACK));
    assert!(!some.contains(&BLUE));
    assert_eq!(some[0], white_color());
    let one = allowed_replacements(GREEN, GREEN);
    assert_eq!(one.len(), 15);
    assert!(!one.contains(&GREEN));
}

#[test]
fn pixel_without_motion_keeps_its_colour() {
    let mut rng = rand::thread_rng();
    let mut f = Frame { width: 2, height: 1, pixels: vec![BLACK, BLACK] };
    relieve_pixel(&mut f, 0, 0, &mut rng);
    assert_eq!(f.pixels, vec![BLACK, BLACK]);
}

#[test]
fn pixel_in_full_motion_leaves_its_neighbours_colour() {
    let mut rng = rand::thread_rng();
    for _ in 0..50 {
        // right neighbour black, lower neighbour blue, pixel black
        let mut f = Frame { width: 2, height: 2, pixels: vec![BLACK, BLACK, BLUE, GREEN] };
        relieve_pixel(&mut f, 0, ALWAYS, &mut rng);
        assert_ne!(f.pixels[0], BLACK);
        assert_ne!(f.pixels[0], BLUE);
        assert!(noise_palette().contains(&f.pixels[0]));
        assert_eq!(&f.pixels[1..], &[BLACK, BLUE, GREEN]);
    }
}

#[test]
fn pixel_without_conflict_is_left_alone() {
    let mut rng = rand::thread_rng();
    let mut f = Frame { width: 2, height: 2, pixels: vec![BLACK, BLUE, BLUE, BLACK] };
    let before = f.pixels.clone();
    for k in 0..4 {
        relieve_pixel(&mut f, k, ALWAYS, &mut rng);
    }
    assert_eq!(f.pixels, before);
}

#[test]
fn white_pairs_are_no_conflict() {
    let mut rng = rand::thread_rng();
    let w = white_color();
    let mut f = Frame { width: 2, height: 1, pixels: vec![w, w] };
    relieve_pixel(&mut f, 0, ALWAYS, &mut rng);
    assert_eq!(f.pixels, vec![w, w]);
}

#[test]
fn enforce_resolves_a_pair_in_full_motion() {
    for _ in 0..20 {
        let mut f = Frame { width: 2, height: 1, pixels: vec![BLACK, BLACK] };
        enforce_noise_rule(&mut f, &vec![ALWAYS, ALWAYS]);
        assert_eq!(f.pixels[1], BLACK);
        assert_ne!(f.pixels[0], BLACK);
        assert_eq!(f.width, 2);
        assert_eq!(f.height, 1);
    }
}

#[test]
fn enforce_keeps_still_and_white_pixels() {
    let w = white_color();
    let mut f = Frame { width: 3, height: 1, pixels: vec![GREEN, GREEN, w] };
    enforce_noise_rule(&mut f, &vec![0, ALWAYS, ALWAYS]);
    assert_eq!(f.pixels, vec![GREEN, GREEN, w]);
}

#[test]
fn certain_threshold_passes_every_draw() {
    assert_eq!(CERTAIN_THRESHOLD, ALWAYS);
    assert!(motion_accepts(u32::MAX, CERTAIN_THRESHOLD));
    assert!(!motion_accepts(u32::MAX, CERTAIN_THRESHOLD - 1));
}

#[test]
fn neighbours_are_white_past_the_edge() {
    let f = Frame { width: 2, height: 2, pixels: vec![BLACK, BLUE, GREEN, BLACK] };
    assert_eq!(relief_neighbours(&f, 0), (BLUE, GREEN));
    assert_eq!(relief_neighbours(&f, 1), (white_color(), BLACK));
    assert_eq!(relief_neighbours(&f, 2), (BLACK, white_color()));
    assert_eq!(relief_neighbours(&f, 3), (white_color(), white_color()));
}

#[test]
fn relief_with_a_passing_draw_takes_the_picked_colour() {
    let mut f = Frame { width: 2, height: 2, pixels: vec![BLACK, BLACK, BLUE, GREEN] };
    // allowed next to black and blue: white first, then green, ...
    relieve_pixel_with(&mut f, 0, 0x10_0000, 0x0fff_ffff, 1);
    let allowed = allowed_replacements(BLACK, BLUE);
    assert_eq!(f.pixels[0], allowed[1]);
    assert_eq!(f.pixels[0], GREEN);
    assert_eq!(&f.pixels[1..], &[BLACK, BLUE, GREEN]);
}

#[test]
fn relief_with_a_failing_draw_changes_nothing() {
    let mut f = Frame { width: 2, height: 1, pixels: vec![BLACK, BLACK] };
    relieve_pixel_with(&mut f, 0, 0x10_0000, 0x1000_0000, 3);
    assert_eq!(f.pixels, vec![BLACK, BLACK]);
}

#[test]
fn relief_with_no_conflict_ignores_the_draw() {
    let mut f = Frame { width: 2, height: 1, pixels: vec![BLACK, BLUE] };
    relieve_pixel_with(&mut f, 0, ALWAYS, 0, 0);
    assert_eq!(f.pixels, vec![BLACK, BLUE]);
}

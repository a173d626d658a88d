use motion_illusion::frame::Frame;
use motion_illusion::noise::{
    colorize, count_marked, generate_noise, mark_conflicts, noise_from_draws, relax_round,
    relax_round_with, settle_indices, NOISE_ROUNDS,
};
use motion_illusion::palette::{noise_palette, white_color, Bgr, PALETTE_LEN, WHITE_INDEX};

fn in_palette(c: Bgr) -> bool {
    noise_palette().contains(&c)
}

fn has_color_conflict(f: &Frame) -> bool {
    let w = f.width;
    (0..f.pixels.len()).any(|k| {
        let c = f.pixels[k];
        c != white_color() && ((k % w != 0 && f.pixels[k - 1] == c) || (k >= w && f.pixels[k - w] == c))
    })
}

#[test]
fn palette_has_sixteen_distinct_colours_with_white_second() {
    let p = noise_palette();
    assert_eq!(p.len(), PALETTE_LEN);
    assert_eq!(p[WHITE_INDEX], Bgr { b: 255, g: 255, r: 255 });
    assert_eq!(p[0], Bgr { b: 0, g: 0, r: 0 });
    assert_eq!(p[2], Bgr { b: 255, g: 0, r: 0 });
    assert_eq!(p[15], Bgr { b: 192, g: 192, r: 192 });
    for i in 0..p.len() {
        for j in 0..p.len() {
            if i != j {
                assert_ne!(p[i], p[j]);
            }
        }
    }
}

#[test]
fn conflicts_are_marked_on_the_later_cell_and_white_never() {
    // 3 wide, 3 high
    let cells = vec![
        0, 0, 2, //
        3, 4, 2, //
        1, 1, 4,
    ];
    let marks = mark_conflicts(&cells, 3, 3);
    assert_eq!(
        marks,
        vec![
            false, true, false, //
            false, false, true, //
            false, false, false,
        ]
    );
    assert_eq!(count_marked(&marks), 2);
}

#[test]
fn row_wrap_is_no_neighbourhood() {
    // the last cell of a row and the first of the next are not neighbours
    let cells = vec![0, 5, 5, 0];
    let marks = mark_conflicts(&cells, 2, 2);
    assert_eq!(marks, vec![false, false, false, false]);
    assert_eq!(count_marked(&marks), 0);
}

#[test]
fn vertical_conflict_is_marked() {
    let cells = vec![7, 8, 7, 9];
    let marks = mark_conflicts(&cells, 2, 2);
    assert_eq!(marks, vec![false, false, true, false]);
}

#[test]
fn settled_round_changes_nothing() {
    let mut rng = rand::thread_rng();
    let mut cells = vec![0, 2, 3, 1, 1, 4];
    let before = cells.clone();
    assert!(relax_round(&mut cells, 2, 3, &mut rng));
    assert_eq!(cells, before);
}

#[test]
fn unsettled_round_touches_only_conflicting_cells() {
    let mut rng = rand::thread_rng();
    let mut cells = vec![6, 6, 3, 4, 5, 3];
    let before = cells.clone();
    assert!(!relax_round(&mut cells, 2, 3, &mut rng));
    for k in [0usize, 2, 3, 4] {
        assert_eq!(cells[k], before[k]);
    }
    for k in 0..cells.len() {
        assert!(cells[k] < PALETTE_LEN);
    }
}

#[test]
fn colorize_paints_each_index() {
    let cells = vec![0, 1, 15, 2];
    let f = colorize(&cells, 2, 2);
    let p = noise_palette();
    assert_eq!(f.width, 2);
    assert_eq!(f.height, 2);
    assert_eq!(f.pixels, vec![p[0], p[1], p[15], p[2]]);
}

#[test]
fn generated_noise_has_the_asked_size_and_palette_colours() {
    let f = generate_noise(30, 40);
    assert_eq!(f.width, 40);
    assert_eq!(f.height, 30);
    assert_eq!(f.pixels.len(), 1200);
    assert!(f.pixels.iter().all(|c| in_palette(*c)));
}

#[test]
fn generated_noise_is_usually_settled() {
    // with 16 colours a few relaxation rounds settle a small texture
    let mut settled = 0;
    for _ in 0..10 {
        if !has_color_conflict(&generate_noise(12, 12)) {
            settled += 1;
        }
    }
    assert!(settled >= 8);
    assert_eq!(NOISE_ROUNDS, 20);
}

#[test]
fn empty_noise() {
    let f = generate_noise(0, 5);
    assert_eq!(f.height, 0);
    assert_eq!(f.width, 5);
    assert!(f.pixels.is_empty());
    let g = generate_noise(3, 0);
    assert!(g.pixels.is_empty());
}

#[test]
fn settling_a_settled_grid_changes_nothing() {
    let mut rng = rand::thread_rng();
    let mut cells = vec![0, 2, 2, 0];
    let before = cells.clone();
    assert!(settle_indices(&mut cells, 2, 2, 5, &mut rng));
    assert_eq!(cells, before);
}

#[test]
fn settling_reports_a_settled_grid_truthfully() {
    let mut rng = rand::thread_rng();
    for _ in 0..20 {
        let mut cells = vec![3; 16];
        let settled = settle_indices(&mut cells, 4, 4, NOISE_ROUNDS, &mut rng);
        if settled {
            assert_eq!(count_marked(&mark_conflicts(&cells, 4, 4)), 0);
        }
        assert!(cells.iter().all(|c| *c < PALETTE_LEN));
    }
}

#[test]
fn no_rounds_no_change() {
    let mut rng = rand::thread_rng();
    let mut cells = vec![3, 3];
    assert!(!settle_indices(&mut cells, 1, 2, 0, &mut rng));
    assert_eq!(cells, vec![3, 3]);
}

#[test]
fn relaxing_with_given_indices_fills_conflicts_in_order() {
    // conflicts at 1 (left) and 4 (above); white at 2/5 is never a conflict
    let mut cells = vec![7, 7, 1, 3, 7, 1];
    relax_round_with(&mut cells, 2, 3, &vec![9, 4]);
    assert_eq!(cells, vec![7, 9, 1, 3, 4, 1]);
}

#[test]
fn relaxing_a_settled_grid_with_nothing_changes_nothing() {
    let mut cells = vec![0, 2, 2, 0];
    relax_round_with(&mut cells, 2, 2, &vec![]);
    assert_eq!(cells, vec![0, 2, 2, 0]);
}

#[test]
fn noise_from_draws_redraws_only_the_right_cell_of_a_pair() {
    let p = noise_palette();
    let f = noise_from_draws(1, 2, &vec![2, 2, 3]).unwrap();
    assert_eq!(f.width, 2);
    assert_eq!(f.height, 1);
    assert_eq!(f.pixels, vec![p[2], p[3]]);
    assert_eq!(f.pixels, vec![Bgr { b: 255, g: 0, r: 0 }, Bgr { b: 0, g: 255, r: 0 }]);
}

#[test]
fn noise_from_draws_runs_out() {
    assert!(noise_from_draws(1, 2, &vec![2, 2]).is_none());
    assert!(noise_from_draws(2, 2, &vec![1]).is_none());
}

#[test]
fn noise_from_draws_keeps_top_left_and_white() {
    let p = noise_palette();
    // 2 x 2 grid of the same colour: cells 1 and 2 conflict and 3 conflicts too
    let draws = vec![5, 5, 5, 5, 6, 1, 5];
    let f = noise_from_draws(2, 2, &draws).unwrap();
    assert_eq!(f.pixels[0], p[5]);
    // round 1: cells 1, 2, 3 take 6, 1, 5 -> [5, 6, 1, 5]: settled
    assert_eq!(f.pixels, vec![p[5], p[6], p[1], p[5]]);
    let g = noise_from_draws(1, 3, &vec![1, 1, 4]).unwrap();
    assert_eq!(g.pixels, vec![p[1], p[1], p[4]]);
}

#[test]
fn noise_from_draws_stops_after_the_last_round() {
    // the pair keeps being redrawn to the same colour until the rounds run out
    let mut draws = vec![8, 8];
    draws.extend(std::iter::repeat(8).take(NOISE_ROUNDS));
    let f = noise_from_draws(1, 2, &draws).unwrap();
    let p = noise_palette();
    assert_eq!(f.pixels, vec![p[8], p[8]]);
    draws.pop();
    assert!(noise_from_draws(1, 2, &draws).is_none());
}

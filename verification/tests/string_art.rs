use string_art::string_art::{ArtError, StepOutcome, StringArt, MAX_DIM};

/// Pins on the circle inscribed in the canvas, pin 0 to the right of the
/// centre, counter-clockwise on screen.
fn pins_on_circle(width: u32, height: u32, n: usize) -> Vec<(u32, u32)> {
    let c_x = width as f64 / 2.0;
    let c_y = height as f64 / 2.0;
    let radius = c_x - 1.0;
    let mut pins = Vec::new();
    for i in 0..n {
        let angle = i as f64 * 2.0 * std::f64::consts::PI / n as f64;
        let x = c_x + (radius * angle.cos()).round();
        let y = c_y - (radius * angle.sin()).round();
        pins.push((x as u32, y as u32));
    }
    pins
}

fn solid(width: u32, height: u32, intensity: u8) -> Vec<u8> {
    vec![intensity; (width * height) as usize]
}

fn gradient(width: u32, height: u32) -> Vec<u8> {
    let mut img = Vec::new();
    for y in 0..height {
        for x in 0..width {
            img.push(((x * 7 + y * 13) % 256) as u8);
        }
    }
    img
}

fn corner_pins() -> Vec<(u32, u32)> {
    vec![(0, 0), (3, 3), (3, 0), (0, 3)]
}

fn tiny(intensity: u8, max_lines: usize, blank_only: bool) -> StringArt {
    StringArt::from_image(solid(4, 4, intensity), 4, 4, 2, corner_pins(), max_lines, blank_only)
        .unwrap()
}

/// Runs the walk: on a stall the next start is `stride` pins further.
fn run(st: &mut StringArt, start: usize, stride: usize, iterations: usize) {
    let mut current = start;
    for _ in 0..iterations {
        let next = st.update_one_line(current);
        if next == current {
            current = (current + stride) % st.pin_nums;
        } else {
            current = next;
        }
    }
}

#[test]
fn fresh_run_is_empty() {
    let st = tiny(0, 10, false);
    assert!(st.lines.is_empty());
    assert_eq!(st.blocks, vec![0, 0, 0, 0]);
    assert_eq!(st.pin_image, vec![false; 16]);
    assert_eq!(st.grid_w, 2);
    assert_eq!(st.grid_h, 2);
    assert_eq!(st.pin_nums, 4);
    assert_eq!(st.lines_drawn(), 0);
    assert!(!st.is_done());
}

#[test]
fn grid_rounds_up() {
    let st = StringArt::from_image(solid(5, 7, 0), 5, 7, 2, corner_pins(), 1, false).unwrap();
    assert_eq!(st.grid_w, 3);
    assert_eq!(st.grid_h, 4);
    assert_eq!(st.blocks.len(), 12);
}

#[test]
fn too_few_pins_is_invalid_config() {
    let r = StringArt::from_image(solid(4, 4, 0), 4, 4, 2, vec![(0, 0)], 10, false);
    assert_eq!(r.err(), Some(ArtError::InvalidConfig));
    let r = StringArt::from_image(solid(4, 4, 0), 4, 4, 2, Vec::new(), 10, false);
    assert_eq!(r.err(), Some(ArtError::InvalidConfig));
}

#[test]
fn zero_block_is_invalid_config() {
    let r = StringArt::from_image(solid(4, 4, 0), 4, 4, 0, corner_pins(), 10, false);
    assert_eq!(r.err(), Some(ArtError::InvalidConfig));
}

#[test]
fn invalid_config_comes_before_the_other_errors() {
    let r = StringArt::from_image(Vec::new(), 70000, 4, 0, corner_pins(), 10, false);
    assert_eq!(r.err(), Some(ArtError::InvalidConfig));
}

#[test]
fn oversized_values_are_too_large() {
    let r = StringArt::from_image(Vec::new(), MAX_DIM + 1, 1, 2, corner_pins(), 10, false);
    assert_eq!(r.err(), Some(ArtError::TooLarge));
    let r = StringArt::from_image(solid(4, 4, 0), 4, 4, MAX_DIM + 1, corner_pins(), 10, false);
    assert_eq!(r.err(), Some(ArtError::TooLarge));
    let far = vec![(0, 0), (3, 70000)];
    let r = StringArt::from_image(solid(4, 4, 0), 4, 4, 2, far, 10, false);
    assert_eq!(r.err(), Some(ArtError::TooLarge));
}

#[test]
fn wrong_image_size_is_a_mismatch() {
    let r = StringArt::from_image(solid(4, 3, 0), 4, 4, 2, corner_pins(), 10, false);
    assert_eq!(r.err(), Some(ArtError::ImageMismatch));
}

#[test]
fn score_on_black_target_is_exact() {
    let st = tiny(0, 10, false);
    // Two pixels in each of two cells of area 4 on a black target:
    // 2 * (2 - 2/4) per cell, 6 in all, times 255 * 4.
    assert_eq!(st.get_line_score(0, 1), Some(6120));
    assert_eq!(st.get_line_score(1, 0), Some(6120));
    assert_eq!(st.get_line_score(2, 3), Some(6120));
    // The top row: two pixels in each of the two upper cells.
    assert_eq!(st.get_line_score(0, 2), Some(6120));
}

#[test]
fn score_on_white_target_is_negative() {
    let st = tiny(255, 10, false);
    assert_eq!(st.get_line_score(0, 1), Some(-2040));
}

#[test]
fn score_on_grey_target_is_exact() {
    let st = tiny(155, 10, false);
    // darkness 100: per cell 2 * (2 * 100 * 4 - 255 * 2) = 580.
    assert_eq!(st.get_line_score(0, 1), Some(1160));
}

#[test]
fn score_counts_existing_ink_and_skips_painted_pixels() {
    let mut st = tiny(0, 10, false);
    assert_eq!(st.update_one_line(0), 1);
    assert_eq!(st.lines, vec![(0, 1)]);
    assert_eq!(st.blocks, vec![2, 0, 0, 2]);
    // The same chord covers no blank pixel any more.
    assert_eq!(st.get_line_score(0, 1), None);
    // The top row lost its first pixel: one pixel over ink 2, two over none.
    assert_eq!(st.get_line_score(0, 2), Some(765 + 3060));
    // The other diagonal crosses no painted pixel in a 4 x 4 canvas.
    assert_eq!(st.get_line_score(2, 3), Some(6120));
}

#[test]
fn commit_paints_the_chord() {
    let mut st = tiny(0, 10, false);
    st.update_one_line(0);
    let mut expected = vec![false; 16];
    for i in 0..4 {
        expected[i * 4 + i] = true;
    }
    assert_eq!(st.pin_image, expected);
}

#[test]
fn ties_go_to_the_lowest_pin() {
    let st = tiny(0, 10, false);
    // From pin 0 all three chords score 6120.
    assert_eq!(st.get_line_score(0, 3), Some(6120));
    assert_eq!(st.best_candidate(0), Some((1, 6120)));
    assert_eq!(st.best_candidate(1), Some((0, 6120)));
}

#[test]
fn drawn_edge_is_no_candidate_in_either_direction() {
    let mut st = tiny(0, 10, false);
    assert!(!st.edge_drawn(0, 1));
    st.update_one_line(0);
    assert!(st.edge_drawn(0, 1));
    assert!(st.edge_drawn(1, 0));
    assert!(!st.edge_drawn(0, 2));
    let from_one = st.best_candidate(1).unwrap();
    assert!(from_one.0 != 0);
}

#[test]
fn commit_of_all_pixels_and_of_blank_pixels_differ_on_overlap() {
    let mut all = tiny(0, 10, false);
    let mut blank = tiny(0, 10, true);
    for st in [&mut all, &mut blank] {
        assert_eq!(st.update_one_line(0), 1);
        assert_eq!(st.blocks, vec![2, 0, 0, 2]);
        // From pin 1 the chord to pin 2 runs down the right column.
        assert_eq!(st.update_one_line(1), 2);
        assert_eq!(st.lines, vec![(0, 1), (1, 2)]);
    }
    // The right column shares pixel (3, 3) with the diagonal.
    assert_eq!(all.blocks, vec![2, 2, 0, 4]);
    assert_eq!(blank.blocks, vec![2, 2, 0, 3]);
    assert_eq!(all.pin_image, blank.pin_image);
}

#[test]
fn solid_white_image_commits_nothing() {
    for max_lines in [0usize, 1, 50] {
        let pins = pins_on_circle(64, 64, 12);
        let mut st =
            StringArt::from_image(solid(64, 64, 255), 64, 64, 8, pins, max_lines, false).unwrap();
        for start in 0..12 {
            for end in 0..12 {
                if let Some(s) = st.get_line_score(start, end) {
                    assert!(s <= 0);
                }
            }
            assert_eq!(st.update_one_line(start), start);
        }
        assert!(st.lines.is_empty());
        assert_eq!(st.blocks, vec![0; 64]);
    }
}

#[test]
fn solid_black_image_six_pins_one_line() {
    let pins = pins_on_circle(64, 64, 6);
    let mut st = StringArt::from_image(solid(64, 64, 0), 64, 64, 8, pins, 1, false).unwrap();
    let start = 2usize;
    let mut winner = None;
    let mut top = 0i128;
    for end in 0..6 {
        if end == start {
            continue;
        }
        let s = st.get_line_score(start, end).unwrap();
        if winner.is_none() || s > top {
            winner = Some(end);
            top = s;
        }
    }
    assert!(top > 0);
    let next = st.update_one_line(start);
    assert_eq!(Some(next), winner);
    assert_eq!(st.lines, vec![(start, next)]);
    assert!(st.is_done());
    // The budget is used up: nothing more is committed from anywhere.
    for pin in 0..6 {
        assert_eq!(st.update_one_line(pin), pin);
    }
    assert_eq!(st.lines.len(), 1);
}

#[test]
fn zero_budget_is_done_at_once() {
    let mut st = tiny(0, 0, false);
    assert!(st.is_done());
    assert_eq!(st.advance(0), StepOutcome::Done);
    assert!(st.lines.is_empty());
}

#[test]
fn advance_tells_commit_stall_and_done_apart() {
    let mut st = tiny(0, 2, false);
    assert_eq!(st.advance(0), StepOutcome::Committed(1));
    let mut white = tiny(255, 2, false);
    assert_eq!(white.advance(0), StepOutcome::Stalled);
    assert!(white.lines.is_empty());
    assert!(matches!(st.advance(1), StepOutcome::Committed(_)));
    assert_eq!(st.advance(2), StepOutcome::Done);
    assert_eq!(st.lines.len(), 2);
}

#[test]
fn no_edge_is_drawn_twice_and_budget_holds() {
    let pins = pins_on_circle(96, 96, 16);
    let mut st = StringArt::from_image(gradient(96, 96), 96, 96, 8, pins, 40, false).unwrap();
    run(&mut st, 2, 5, 120);
    assert!(st.lines.len() <= 40);
    assert!(!st.lines.is_empty());
    for i in 0..st.lines.len() {
        let (a, b) = st.lines[i];
        assert!(a != b);
        assert!(a < 16 && b < 16);
        for j in (i + 1)..st.lines.len() {
            assert!(st.lines[j] != (a, b));
            assert!(st.lines[j] != (b, a));
        }
    }
}

#[test]
fn every_committed_chord_had_a_positive_score() {
    let pins = pins_on_circle(96, 96, 16);
    let mut st = StringArt::from_image(gradient(96, 96), 96, 96, 8, pins, 30, false).unwrap();
    let mut current = 0usize;
    let mut commits = 0;
    for _ in 0..80 {
        let scores: Vec<Option<i128>> =
            (0..16).map(|end| st.get_line_score(current, end)).collect();
        let before = st.lines.len();
        let next = st.update_one_line(current);
        if st.lines.len() > before {
            assert_eq!(st.lines[before], (current, next));
            assert!(scores[next].unwrap() > 0);
            commits += 1;
            current = next;
        } else {
            assert_eq!(next, current);
            current = (current + 3) % 16;
        }
    }
    assert!(commits > 0);
}

#[test]
fn ink_never_decreases() {
    let pins = pins_on_circle(96, 96, 16);
    let mut st = StringArt::from_image(gradient(96, 96), 96, 96, 8, pins, 30, false).unwrap();
    let mut current = 1usize;
    for _ in 0..60 {
        let before = st.blocks.clone();
        let next = st.update_one_line(current);
        for c in 0..before.len() {
            assert!(st.blocks[c] >= before[c]);
        }
        current = if next == current { (current + 3) % 16 } else { next };
    }
}

#[test]
fn two_runs_give_the_same_log() {
    let mut logs = Vec::new();
    for _ in 0..2 {
        let pins = pins_on_circle(96, 96, 16);
        let mut st = StringArt::from_image(gradient(96, 96), 96, 96, 8, pins, 25, false).unwrap();
        run(&mut st, 3, 5, 60);
        logs.push((st.lines, st.blocks, st.pin_image));
    }
    assert!(!logs[0].0.is_empty());
    assert_eq!(logs[0], logs[1]);
}

#[test]
fn smaller_budget_gives_a_prefix_of_the_log() {
    let mut previous: Vec<(usize, usize)> = Vec::new();
    for k in 0..12usize {
        let pins = pins_on_circle(96, 96, 16);
        let mut st = StringArt::from_image(gradient(96, 96), 96, 96, 8, pins, k, false).unwrap();
        run(&mut st, 3, 5, 60);
        assert_eq!(st.lines.len(), k);
        assert_eq!(&st.lines[..previous.len()], &previous[..]);
        previous = st.lines;
    }
}

#[test]
fn four_pins_lie_on_the_axes() {
    let pins = pins_on_circle(64, 48, 4);
    assert_eq!(pins, vec![(63, 24), (32, 0), (1, 24), (32, 55)]);
    let pins = pins_on_circle(100, 100, 4);
    assert_eq!(pins, vec![(99, 50), (50, 1), (1, 50), (50, 99)]);
    for (x, y) in pins {
        let dx = x as i64 - 50;
        let dy = y as i64 - 50;
        assert_eq!(dx * dx + dy * dy, 49 * 49);
    }
}

#[test]
fn pins_off_the_canvas_are_clipped() {
    // The circle of a wide canvas leaves it above and below.
    let pins = vec![(0, 1), (7, 1), (4, 40), (4, 0)];
    let mut st = StringArt::from_image(solid(8, 3, 0), 8, 3, 2, pins, 5, false).unwrap();
    // Of the 41 pixels from (4, 0) to (4, 40) three are on the canvas.
    // Column 4 is in grid column 2: two pixels in the upper cell, one in the lower.
    let upper = 2 * (2 * 255 * 4 - 255 * 2);
    let lower = 2 * 255 * 4 - 255;
    assert_eq!(st.get_line_score(3, 2), Some(upper + lower));
    assert_eq!(st.update_one_line(2), 3);
    assert_eq!(st.blocks, vec![0, 0, 2, 0, 0, 0, 1, 0]);
}

#[test]
fn test_img_load() {
    let input = gradient(256, 256);
    let pins = pins_on_circle(256, 256, 288);
    let mut st = StringArt::from_image(input, 256, 256, 16, pins, 4000, true).unwrap();
    let mut current_pin = 2usize;
    for _ in 1..60 {
        let next_pin = st.update_one_line(current_pin);
        if next_pin == current_pin {
            current_pin = (current_pin + 18) % st.pin_nums;
            continue;
        }
        current_pin = next_pin;
    }
    assert!(st.lines.len() <= 4000);
    assert!(current_pin < 288);
}

#[test]
fn library_walk_is_the_step_by_step_walk() {
    let pins = pins_on_circle(96, 96, 16);
    let mut by_hand =
        StringArt::from_image(gradient(96, 96), 96, 96, 8, pins.clone(), 20, false).unwrap();
    let mut by_walk = StringArt::from_image(gradient(96, 96), 96, 96, 8, pins, 20, false).unwrap();
    run(&mut by_hand, 3, 5, 50);
    let reached = by_walk.run(3, 5, 50);
    assert!(reached < 16);
    assert_eq!(by_walk.lines, by_hand.lines);
    assert_eq!(by_walk.blocks, by_hand.blocks);
    assert_eq!(by_walk.pin_image, by_hand.pin_image);
    assert_eq!(by_walk.lines.len(), 20);
}

#[test]
fn walk_of_no_steps_changes_nothing() {
    let mut st = tiny(0, 5, false);
    assert_eq!(st.run(2, 1, 0), 2);
    assert!(st.lines.is_empty());
}

#[test]
fn stalled_walk_hops_round_the_circle() {
    let mut white = tiny(255, 5, false);
    // Four pins, stride 3: 1 -> 0 -> 3 -> 2.
    assert_eq!(white.run(1, 3, 1), 0);
    assert_eq!(white.run(0, 3, 2), 2);
    // A stride of a whole turn and more counts by its remainder.
    assert_eq!(white.run(1, 4, 1), 1);
    assert_eq!(white.run(1, 7, 1), 0);
    assert!(white.lines.is_empty());
}

#[test]
fn larger_budget_extends_the_log_of_a_walk() {
    let mut previous: Vec<(usize, usize)> = Vec::new();
    for k in 0..10usize {
        let pins = pins_on_circle(64, 64, 12);
        let mut st = StringArt::from_image(gradient(64, 64), 64, 64, 8, pins, k, true).unwrap();
        st.run(0, 5, 40);
        assert!(st.lines.len() <= k);
        assert!(st.lines.len() >= previous.len());
        assert_eq!(&st.lines[..previous.len()], &previous[..]);
        previous = st.lines;
    }
    assert!(!previous.is_empty());
}

#[test]
fn tiny_walk_is_exact() {
    let mut st = tiny(0, 10, false);
    let reached = st.run(0, 1, 3);
    // 0 -> 1 (diagonal), 1 -> 2 (right column), then from 2 the best of 0 and 3.
    assert_eq!(&st.lines[..2], &[(0, 1), (1, 2)]);
    assert_eq!(st.lines.len(), 3);
    assert_eq!(st.lines[2].0, 2);
    assert_eq!(reached, st.lines[2].1);
}

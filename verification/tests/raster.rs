use string_art::raster::{pixel_at, steps};

fn pixels(p: (u32, u32), q: (u32, u32)) -> Vec<(u32, u32)> {
    let n = steps(p, q);
    let mut out = Vec::new();
    let mut i: u32 = 0;
    while i <= n {
        out.push(pixel_at(p, q, i));
        i += 1;
    }
    out
}

#[test]
fn diagonal_chord_visits_the_diagonal() {
    assert_eq!(steps((0, 0), (3, 3)), 3);
    assert_eq!(pixels((0, 0), (3, 3)), vec![(0, 0), (1, 1), (2, 2), (3, 3)]);
}

#[test]
fn chord_of_one_point_is_that_point() {
    assert_eq!(steps((5, 7), (5, 7)), 0);
    assert_eq!(pixels((5, 7), (5, 7)), vec![(5, 7)]);
}

#[test]
fn shallow_chord_rounds_to_the_nearest_row() {
    assert_eq!(
        pixels((0, 0), (4, 2)),
        vec![(0, 0), (1, 1), (2, 1), (3, 2), (4, 2)]
    );
}

#[test]
fn steep_falling_chord_steps_along_y() {
    assert_eq!(steps((1, 5), (3, 0)), 5);
    assert_eq!(
        pixels((1, 5), (3, 0)),
        vec![(1, 5), (1, 4), (2, 3), (2, 2), (3, 1), (3, 0)]
    );
}

#[test]
fn both_directions_give_the_same_pixels() {
    let ends = [
        ((0u32, 0u32), (9u32, 4u32)),
        ((9, 0), (0, 7)),
        ((3, 8), (3, 1)),
        ((12, 2), (1, 2)),
        ((7, 7), (0, 6)),
    ];
    for (p, q) in ends {
        assert_eq!(steps(p, q), steps(q, p));
        assert_eq!(pixels(p, q), pixels(q, p));
    }
}

#[test]
fn chord_ends_at_both_pins() {
    let p = (2u32, 11u32);
    let q = (17u32, 5u32);
    let px = pixels(p, q);
    assert_eq!(px.len(), 16);
    assert_eq!(px[0], (2, 11));
    assert_eq!(px[15], (17, 5));
}

#[test]
fn pixels_stay_between_the_ends() {
    let ends = [((3u32, 40u32), (29u32, 2u32)), ((50, 7), (0, 9)), ((0, 0), (65535, 65535))];
    for (p, q) in ends {
        let n = steps(p, q);
        for i in [0, 1, n / 3, n / 2, n - 1, n] {
            let (x, y) = pixel_at(p, q, i);
            assert!(p.0.min(q.0) <= x && x <= p.0.max(q.0));
            assert!(p.1.min(q.1) <= y && y <= p.1.max(q.1));
        }
        assert_eq!(pixel_at(p, q, 0), p.min(q));
        assert_eq!(pixel_at(p, q, n), p.max(q));
    }
}

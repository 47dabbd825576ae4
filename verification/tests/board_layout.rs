use plinko::board::{create_pyramid, zone_power};

#[test]
fn pyramid_has_expected_counts() {
    let b = create_pyramid();
    // Rows hold 3..=18 pegs: 168 in total; 17 zones under the final row.
    assert_eq!(b.pegs.len(), 168);
    assert_eq!(b.zones.len(), 17);
}

#[test]
fn pyramid_rows_are_centered() {
    let b = create_pyramid();
    // First row: 3 pegs at y = 200 starting at x = -50, spaced by 50.
    assert_eq!((b.pegs[0].x, b.pegs[0].y), (-50, 200));
    assert_eq!((b.pegs[1].x, b.pegs[1].y), (0, 200));
    assert_eq!((b.pegs[2].x, b.pegs[2].y), (50, 200));
    // Second row: 4 pegs at y = 165 starting at x = -75.
    assert_eq!((b.pegs[3].x, b.pegs[3].y), (-75, 165));
    // Final row: 18 pegs at y = -325 starting at x = -425.
    let last_row_start = 168 - 18;
    assert_eq!((b.pegs[last_row_start].x, b.pegs[last_row_start].y), (-425, -325));
    assert_eq!((b.pegs[167].x, b.pegs[167].y), (425, -325));
}

#[test]
fn zones_sit_in_final_row_gaps() {
    let b = create_pyramid();
    for (i, z) in b.zones.iter().enumerate() {
        assert_eq!(z.x, -400 + 50 * i as i64);
        assert_eq!(z.y, -345);
    }
}

#[test]
fn zone_powers_follow_the_u_curve() {
    let b = create_pyramid();
    let expected: Vec<u32> = vec![31, 24, 18, 12, 8, 4, 2, 0, 0, 0, 2, 4, 8, 12, 18, 24, 31];
    let got: Vec<u32> = b.zones.iter().map(|z| z.power).collect();
    assert_eq!(got, expected);
}

#[test]
fn zone_power_sequence_is_a_palindrome() {
    let b = create_pyramid();
    let n = b.zones.len();
    for i in 0..n {
        assert_eq!(b.zones[i].power, b.zones[n - 1 - i].power);
    }
    // U-shaped: non-increasing to the center, non-decreasing after it.
    for i in 0..8 {
        assert!(b.zones[i].power >= b.zones[i + 1].power);
    }
    for i in 8..n - 1 {
        assert!(b.zones[i].power <= b.zones[i + 1].power);
    }
}

#[test]
fn zone_power_rounds_the_squared_curve() {
    // power = round((0.7 * x)^2), computed exactly in integers.
    assert_eq!(zone_power(0), 0);
    assert_eq!(zone_power(1), 0); // 0.49 rounds down
    assert_eq!(zone_power(2), 2); // 1.96 rounds up
    assert_eq!(zone_power(3), 4); // 4.41
    assert_eq!(zone_power(4), 8); // 7.84
    assert_eq!(zone_power(5), 12); // 12.25
    assert_eq!(zone_power(6), 18); // 17.64
    assert_eq!(zone_power(7), 24); // 24.01
    assert_eq!(zone_power(8), 31); // 31.36
}

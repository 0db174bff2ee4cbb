use donut::dither::{dither, dither_with};
use donut::fixed::{relu, HALF, ONE};

const ZERO_OFFSET: u32 = 0x8000_0000;

#[test]
fn relu_keeps_positive_and_zeroes_negative() {
    assert_eq!(relu(5), 5);
    assert_eq!(relu(0), 0);
    assert_eq!(relu(-1), 0);
    assert_eq!(relu(i64::MIN), 0);
    assert_eq!(relu(i64::MAX), i64::MAX);
}

#[test]
fn fixed_point_constants() {
    assert_eq!(ONE, 1 << 24);
    assert_eq!(HALF * 2, ONE);
}

#[test]
fn dither_far_below_range_is_zero() {
    for _ in 0..1000 {
        assert_eq!(dither(-5 * ONE, 10), 0);
    }
}

#[test]
fn dither_far_above_range_is_last() {
    for _ in 0..1000 {
        assert_eq!(dither(1000 * ONE, 10), 9);
    }
}

#[test]
fn dither_stays_in_range() {
    let counts: [usize; 5] = [1, 2, 10, 80, 65535];
    for &count in counts.iter() {
        let mut value: i64 = -3 * ONE;
        while value < (count as i64 + 3) * ONE && value < 100 * ONE {
            let r = dither(value, count);
            assert!(r < count);
            value += ONE / 7;
        }
        assert!(dither(i64::MIN, count) == 0);
        assert!(dither(i64::MAX, count) == count - 1);
    }
}

#[test]
fn dither_at_range_ends_is_fixed() {
    for _ in 0..1000 {
        assert_eq!(dither(0, 10), 0);
        assert_eq!(dither(9 * ONE, 10), 9);
        assert_eq!(dither(5 * ONE, 1), 0);
    }
}

#[test]
fn dither_moves_by_less_than_one_half() {
    let value = 3 * ONE + ONE / 2;
    for _ in 0..1000 {
        let r = dither(value, 10);
        assert!(r == 3 || r == 4);
    }
}

#[test]
fn dither_draws_afresh_each_time() {
    let value = 3 * ONE + ONE / 2;
    let mut low = 0;
    let mut high = 0;
    for _ in 0..400 {
        if dither(value, 10) == 3 {
            low += 1;
        } else {
            high += 1;
        }
    }
    assert!(low > 0);
    assert!(high > 0);
}

#[test]
fn dither_of_a_whole_number_is_that_number() {
    for _ in 0..200 {
        assert_eq!(dither(4 * ONE, 10), 4);
    }
}

#[test]
fn dither_with_lowest_and_highest_draw() {
    let value = 3 * ONE + ONE / 4;
    assert_eq!(dither_with(value, 0, 10), 3);
    assert_eq!(dither_with(value, u32::MAX, 10), 4);
}

#[test]
fn dither_with_ignores_the_low_eight_bits() {
    let value = 2 * ONE + ONE / 2;
    assert_eq!(dither_with(value, 0x7fff_ff00, 10), 2);
    assert_eq!(dither_with(value, 0x7fff_ffff, 10), 2);
    assert_eq!(dither_with(value, 0x8000_0000, 10), 3);
    assert_eq!(dither_with(value, 0x8000_00ff, 10), 3);
}

#[test]
fn dither_with_rounds_halves_away_from_zero() {
    assert_eq!(dither_with(3 * ONE + HALF, ZERO_OFFSET, 10), 4);
    assert_eq!(dither_with(HALF, ZERO_OFFSET, 10), 1);
    assert_eq!(dither_with(HALF - 1, ZERO_OFFSET, 10), 0);
    assert_eq!(dither_with(-HALF, ZERO_OFFSET, 10), 0);
}

#[test]
fn dither_with_clamps_to_the_range() {
    assert_eq!(dither_with(-5 * ONE, ZERO_OFFSET, 10), 0);
    assert_eq!(dither_with(10 * ONE, ZERO_OFFSET, 10), 9);
    assert_eq!(dither_with(9 * ONE + HALF + 1, ZERO_OFFSET, 10), 9);
    assert_eq!(dither_with(1000 * ONE, 0, 10), 9);
    assert_eq!(dither_with(i64::MAX, u32::MAX, 10), 9);
    assert_eq!(dither_with(i64::MIN, 0, 10), 0);
    assert_eq!(dither_with(7 * ONE, ZERO_OFFSET, 1), 0);
}

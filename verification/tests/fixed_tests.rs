use maze_pursuit::fixed::normalize_angle;
use maze_pursuit::fixed::div_floor;
use maze_pursuit::fixed::isqrt;
use maze_pursuit::fixed::sin_approx;
use maze_pursuit::fixed::cos_approx;
use maze_pursuit::fixed::atan2_approx;

#[test]
fn normalize_angle_lands_in_half_open_range() {
    assert_eq!(normalize_angle(0), 0);
    assert_eq!(normalize_angle(360_000), 0);
    assert_eq!(normalize_angle(540_000), 180_000);
    assert_eq!(normalize_angle(-180_000), 180_000);
    assert_eq!(normalize_angle(180_000), 180_000);
    assert_eq!(normalize_angle(-90_000), -90_000);
    assert_eq!(normalize_angle(725_000), 5_000);
    assert_eq!(normalize_angle(-725_000), -5_000);
}

#[test]
fn div_floor_rounds_toward_negative_infinity() {
    assert_eq!(div_floor(7, 2), 3);
    assert_eq!(div_floor(-7, 2), -4);
    assert_eq!(div_floor(-8, 2), -4);
    assert_eq!(div_floor(0, 5), 0);
}

#[test]
fn isqrt_exact_values() {
    assert_eq!(isqrt(0), 0);
    assert_eq!(isqrt(1), 1);
    assert_eq!(isqrt(144), 12);
    assert_eq!(isqrt(145), 12);
    assert_eq!(isqrt(168), 12);
    assert_eq!(isqrt(169), 13);
    assert_eq!(isqrt(1_000_000_000_000_000_000), 1_000_000_000);
}

#[test]
fn sine_hits_the_exact_rational_points() {
    // Bhaskara's approximation is exact at 0, 30, 90, 150, 180 degrees
    assert_eq!(sin_approx(0), 0);
    assert_eq!(sin_approx(30_000), 500);
    assert_eq!(sin_approx(90_000), 1000);
    assert_eq!(sin_approx(150_000), 500);
    assert_eq!(sin_approx(180_000), 0);
    assert_eq!(sin_approx(-30_000), -500);
    assert_eq!(sin_approx(-90_000), -1000);
}

#[test]
fn cosine_follows_the_quarter_turn_shift() {
    assert_eq!(cos_approx(0), 1000);
    assert_eq!(cos_approx(60_000), 500);
    assert_eq!(cos_approx(90_000), 0);
    assert_eq!(cos_approx(180_000), -1000);
    assert_eq!(cos_approx(-60_000), 500);
}

#[test]
fn atan2_exact_on_axes_and_diagonals() {
    assert_eq!(atan2_approx(0, 100), 0);
    assert_eq!(atan2_approx(100, 100), 45_000);
    assert_eq!(atan2_approx(100, 0), 90_000);
    assert_eq!(atan2_approx(100, -100), 135_000);
    assert_eq!(atan2_approx(0, -100), 180_000);
    assert_eq!(atan2_approx(-100, -100), -135_000);
    assert_eq!(atan2_approx(-100, 0), -90_000);
    assert_eq!(atan2_approx(-100, 100), -45_000);
    assert_eq!(atan2_approx(0, 0), 0);
}

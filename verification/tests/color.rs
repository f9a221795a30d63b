use sortviz::color::{Color, Gradient};
use sortviz::ratio::Ratio;

fn ratio(num: i64, den: i64) -> Ratio {
    Ratio::new(num, den).unwrap()
}

#[test]
fn to_rgb_splits_the_packed_value() {
    assert_eq!(Color(0x70AF00).to_rgb(), [0x70, 0xAF, 0x00]);
    assert_eq!(Color(0x1f1f1f).to_rgb(), [0x1f, 0x1f, 0x1f]);
    assert_eq!(Color(0xFFFFFF).to_rgb(), [255, 255, 255]);
    assert_eq!(Color(0).to_rgb(), [0, 0, 0]);
}

#[test]
fn to_rgb_ignores_bits_above_the_channels() {
    assert_eq!(Color(0xAB123456).to_rgb(), [0x12, 0x34, 0x56]);
}

#[test]
fn lerp_at_the_ends_gives_the_two_colors() {
    let a = Color(0x102030);
    let b = Color(0xF0E0D0);
    assert_eq!(a.lerp(&b, ratio(0, 1)), a);
    assert_eq!(a.lerp(&b, ratio(1, 1)), b);
    assert_eq!(a.lerp(&b, ratio(7, 7)), b);
}

#[test]
fn lerp_rounds_each_channel_to_the_nearest_value() {
    // 0 -> 255 at 1/2 is 127.5, which rounds up; 10 -> 13 at 1/3 is 11; 13 -> 10 at 1/3 is 12.
    let c = Color(0x000A0D).lerp(&Color(0xFF0D0A), ratio(1, 2));
    assert_eq!(c.to_rgb(), [128, 12, 12]);
    let c = Color(0x000A0D).lerp(&Color(0xFF0D0A), ratio(1, 3));
    assert_eq!(c.to_rgb(), [85, 11, 12]);
    let c = Color(0x000000).lerp(&Color(0x0000FF), ratio(2, 10));
    assert_eq!(c, Color(0x000033));
}

#[test]
fn lerp_beyond_one_spills_into_the_next_channel() {
    // blue: 0 -> 200 at 2 is 400 = 0x190, which reaches into green.
    let c = Color(0x000000).lerp(&Color(0x0000C8), ratio(2, 1));
    assert_eq!(c, Color(0x000190));
}

#[test]
fn lerp_below_zero_stops_at_zero() {
    let c = Color(0x000000).lerp(&Color(0x0000C8), ratio(-1, 1));
    assert_eq!(c, Color(0x000000));
    let c = Color(0x000010).lerp(&Color(0x000020), ratio(-1, 2));
    assert_eq!(c, Color(0x000008));
}

#[test]
fn sample_at_zero_is_the_first_stop_and_at_one_the_last() {
    let g = Gradient { colors: vec![Color(0x0000FF), Color(0x70AF00), Color(0xFF0000)] };
    assert_eq!(g.sample(ratio(0, 1)), Color(0x0000FF));
    assert_eq!(g.sample(ratio(1, 1)), Color(0xFF0000));
    assert_eq!(g.sample(ratio(5, 5)), Color(0xFF0000));
}

#[test]
fn sample_outside_the_unit_interval_is_clamped() {
    let g = Gradient { colors: vec![Color(0x0000FF), Color(0x70AF00), Color(0xFF0000)] };
    assert_eq!(g.sample(ratio(-3, 2)), Color(0x0000FF));
    assert_eq!(g.sample(ratio(7, 2)), Color(0xFF0000));
}

#[test]
fn sample_of_a_single_stop_is_that_stop() {
    let g = Gradient { colors: vec![Color(0x123456)] };
    for num in -4..8 {
        assert_eq!(g.sample(ratio(num, 4)), Color(0x123456));
    }
}

#[test]
fn sample_half_way_between_two_stops_is_their_rounded_average() {
    let g = Gradient { colors: vec![Color(0x10FF01), Color(0x200002)] };
    assert_eq!(g.sample(ratio(1, 2)).to_rgb(), [0x18, 128, 2]);
    assert_eq!(g.sample(ratio(3, 6)).to_rgb(), [0x18, 128, 2]);
}

#[test]
fn sample_on_a_stop_is_that_stop() {
    let g = Gradient { colors: vec![Color(0x0000FF), Color(0x70AF00), Color(0xFF0000)] };
    assert_eq!(g.sample(ratio(1, 2)), Color(0x70AF00));
}

#[test]
fn sample_between_stops_blends_the_two_around_it() {
    let g = Gradient { colors: vec![Color(0x0000FF), Color(0x70AF00), Color(0xFF0000)] };
    // 2 * 1/4 = 1/2: half way from the first stop to the second.
    assert_eq!(g.sample(ratio(1, 4)).to_rgb(), [0x38, 88, 128]);
    // 2 * 3/4 = 3/2: half way from the second stop to the third.
    assert_eq!(g.sample(ratio(3, 4)).to_rgb(), [184, 88, 0]);
}

#[test]
fn ratio_needs_a_positive_denominator() {
    assert!(Ratio::new(1, 0).is_none());
    assert!(Ratio::new(1, -2).is_none());
    let r = Ratio::new(-3, 4).unwrap();
    assert_eq!((r.numer(), r.denom()), (-3, 4));
    assert!(Ratio::zero().is_zero());
    assert!(!r.is_zero());
    assert!(!r.is_in_unit());
    assert!(ratio(4, 4).is_in_unit());
    assert!(ratio(1, 2).same_value(&ratio(3, 6)));
    assert!(!ratio(1, 2).same_value(&ratio(2, 3)));
}

#[test]
fn sample_between_zero_and_one_keeps_only_the_channels_of_a_stop() {
    let g = Gradient { colors: vec![Color(0xAB123456)] };
    assert_eq!(g.sample(ratio(0, 1)), Color(0x123456));
    assert_eq!(g.sample(ratio(1, 2)), Color(0x123456));
    assert_eq!(g.sample(ratio(1, 1)), Color(0xAB123456));
    assert_eq!(g.sample(ratio(-1, 1)), Color(0xAB123456));
}

#[test]
fn lerp_is_the_same_for_every_way_to_write_a_fraction() {
    let a = Color(0x0A141E);
    let b = Color(0xC8D2DC);
    assert_eq!(a.lerp(&b, ratio(1, 3)), a.lerp(&b, ratio(5, 15)));
    assert_eq!(a.lerp(&b, ratio(2, 10)), a.lerp(&b, ratio(1, 5)));
    let g = Gradient { colors: vec![a, b, Color(0xFF0000)] };
    assert_eq!(g.sample(ratio(3, 8)), g.sample(ratio(36, 96)));
}

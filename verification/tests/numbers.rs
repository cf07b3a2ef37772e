use waronmap::numeric::{attack_damage, clamp_i64, default_send_per_tick, format_army_label, sanitize_send_per_tick};

#[test]
fn clamps_into_the_range() {
    assert_eq!(clamp_i64(5, 1, 10), 5);
    assert_eq!(clamp_i64(-5, 1, 10), 1);
    assert_eq!(clamp_i64(50, 1, 10), 10);
}

#[test]
fn rates_stay_between_one_and_the_limit() {
    assert_eq!(default_send_per_tick(), 1);
    assert_eq!(sanitize_send_per_tick(0), 1);
    assert_eq!(sanitize_send_per_tick(77), 77);
    assert_eq!(sanitize_send_per_tick(251), 250);
}

fn label_in_doubles(value: i64) -> String {
    let army = value.max(0) as f64;
    if army >= 1_000_000.0 {
        let millions = (army / 100_000.0).round() / 10.0;
        return if millions.fract().abs() < f64::EPSILON {
            format!("{millions:.0}M")
        } else {
            format!("{millions:.1}M")
        };
    }
    if army >= 1_000.0 {
        let thousands = (army / 100.0).round() / 10.0;
        return if thousands.fract().abs() < f64::EPSILON {
            format!("{thousands:.0}K")
        } else {
            format!("{thousands:.1}K")
        };
    }
    format!("{}", army.round() as i64)
}

#[test]
fn labels_round_to_tenths() {
    assert_eq!(format_army_label(-3), "0");
    assert_eq!(format_army_label(999), "999");
    assert_eq!(format_army_label(1000), "1K");
    assert_eq!(format_army_label(1049), "1K");
    assert_eq!(format_army_label(1050), "1.1K");
    assert_eq!(format_army_label(999_999), "1000K");
    assert_eq!(format_army_label(1_000_000), "1M");
    assert_eq!(format_army_label(2_550_000), "2.6M");
}

#[test]
fn labels_agree_with_doubles() {
    let mut seed: u64 = 12345;
    for shift in 0..64 {
        for _ in 0..200 {
            seed = seed.wrapping_mul(6364136223846793005).wrapping_add(1442695040888963407);
            let value = (seed >> shift) as i64;
            let value = if value < 0 { -(value + 1) } else { value };
            let want = label_in_doubles(value);
            assert_eq!(format_army_label(value), want, "{value}");
        }
    }
}

#[test]
fn damage_agrees_with_doubles() {
    let mut seed: u64 = 99;
    for percent in 0..100 {
        for shift in 1..64 {
            seed = seed.wrapping_mul(6364136223846793005).wrapping_add(1442695040888963407);
            let flow = (seed >> shift) as i64;
            let reduction = (percent as f64 / 100.0).min(0.99);
            let want = (flow as f64 * (1.0 - reduction)) as i64;
            assert_eq!(attack_damage(flow, percent), want, "{flow} {percent}");
        }
    }
}

#[test]
fn no_reduction_means_full_damage() {
    assert_eq!(attack_damage(250, 0), 250);
    assert_eq!(attack_damage(100, 99), 1);
    assert_eq!(attack_damage(10, 50), 5);
}

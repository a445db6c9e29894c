use matchmaker::config::{Config, Overrides};
use matchmaker::number::{Real, INFINITY_BITS, NAN_BITS, NAN_RANK, NEG_INFINITY_BITS};
use ordered_float::OrderedFloat;

fn number(x: f32) -> Real {
    Real { bits: x.to_bits() }
}

fn nothing_set() -> Overrides {
    Overrides {
        bind: None,
        workers: None,
        initial_window: None,
        max_window: None,
        relax_secs: None,
        cross_region_after_secs: None,
        hard_deadline_secs: None,
        candidate_cap: None,
        idle_sleep_ms: None,
    }
}

fn samples() -> Vec<f32> {
    vec![
        f32::NEG_INFINITY,
        f32::MIN,
        -100.0,
        -1.5,
        -f32::MIN_POSITIVE,
        -1e-45,
        -0.0,
        0.0,
        1e-45,
        f32::MIN_POSITIVE,
        0.001,
        1.0,
        1.0000001,
        49.999996,
        50.0,
        100.0,
        f32::MAX,
        f32::INFINITY,
        f32::NAN,
        -f32::NAN,
    ]
}

#[test]
fn defaults_are_the_documented_ones() {
    let c = Config::with_parallelism(Some(12));
    assert_eq!(c.bind_addr, "0.0.0.0:3000");
    assert_eq!(c.workers, 12);
    assert_eq!(c.initial_window, number(5.0));
    assert_eq!(c.max_window, number(40.0));
    assert_eq!(c.relax_secs, number(30.0));
    assert_eq!(c.cross_region_after_secs, number(8.0));
    assert_eq!(c.hard_deadline_secs, number(45.0));
    assert_eq!(c.candidate_cap, 256);
    assert_eq!(c.idle_sleep_ms, 5);
    assert_eq!(Config::with_parallelism(None).workers, 4);
    assert_eq!(Config::with_parallelism(Some(0)).workers, 1);
    assert_eq!(Config::from_env(Some(0), nothing_set()).workers, 1);
    assert_eq!(c.clone().bind_addr, c.bind_addr);
}

#[test]
fn an_empty_environment_changes_nothing() {
    let c = Config::from_env(Some(3), nothing_set());
    assert_eq!(c.bind_addr, "0.0.0.0:3000");
    assert_eq!(c.workers, 3);
    assert_eq!(c.initial_window, number(5.0));
    assert_eq!(c.max_window, number(40.0));
    assert_eq!(c.relax_secs, number(30.0));
    assert_eq!(c.cross_region_after_secs, number(8.0));
    assert_eq!(c.hard_deadline_secs, number(45.0));
    assert_eq!(c.candidate_cap, 256);
    assert_eq!(c.idle_sleep_ms, 5);
}

#[test]
fn the_environment_overrides_each_knob() {
    let c = Config::from_env(
        Some(3),
        Overrides {
            bind: Some("127.0.0.1:8080".to_string()),
            workers: Some(2),
            initial_window: Some(number(1.0)),
            max_window: Some(number(10.0)),
            relax_secs: Some(number(12.5)),
            cross_region_after_secs: Some(number(3.0)),
            hard_deadline_secs: Some(number(12.0)),
            candidate_cap: Some(64),
            idle_sleep_ms: Some(50),
        },
    );
    assert_eq!(c.bind_addr, "127.0.0.1:8080");
    assert_eq!(c.workers, 2);
    assert_eq!(c.initial_window, number(1.0));
    assert_eq!(c.max_window, number(10.0));
    assert_eq!(c.relax_secs, number(12.5));
    assert_eq!(c.cross_region_after_secs, number(3.0));
    assert_eq!(c.hard_deadline_secs, number(12.0));
    assert_eq!(c.candidate_cap, 64);
    assert_eq!(c.idle_sleep_ms, 50);
}

#[test]
fn overrides_are_held_to_their_floors() {
    let with = |relax: f32| {
        Config::from_env(
            None,
            Overrides {
                workers: Some(0),
                candidate_cap: Some(9),
                relax_secs: Some(number(relax)),
                ..nothing_set()
            },
        )
    };
    let c = with(-4.0);
    assert_eq!(c.workers, 1);
    assert_eq!(c.candidate_cap, 10);
    assert_eq!(c.relax_secs, number(0.001));
    assert_eq!(with(f32::NAN).relax_secs, number(0.001));
    assert_eq!(with(0.001).relax_secs, number(0.001));
    assert_eq!(with(0.002).relax_secs, number(0.002));
}

#[test]
fn infinities_have_their_bit_patterns() {
    assert_eq!(INFINITY_BITS, f32::INFINITY.to_bits());
    assert_eq!(NEG_INFINITY_BITS, f32::NEG_INFINITY.to_bits());
    assert!(f32::from_bits(NAN_BITS).is_nan());
}

#[test]
fn rank_orders_as_the_numbers_do() {
    for a in samples() {
        for b in samples() {
            assert_eq!(
                number(a).rank() < number(b).rank(),
                OrderedFloat(a) < OrderedFloat(b),
                "{a} against {b}"
            );
            assert_eq!(
                number(a).rank() == number(b).rank(),
                OrderedFloat(a) == OrderedFloat(b),
                "{a} against {b}"
            );
        }
    }
    assert_eq!(number(0.0).rank(), 0);
    assert_eq!(number(f32::NAN).rank(), NAN_RANK);
    assert_eq!(number(-1.0).rank(), -0x3f80_0000);
}

#[test]
fn comparison_is_the_ieee_one() {
    for a in samples() {
        assert_eq!(number(a).is_nan(), a.is_nan());
        for b in samples() {
            assert_eq!(number(a).at_least(number(b)), a >= b, "{a} against {b}");
        }
    }
}

#[test]
fn clamp_brings_numbers_into_bounds() {
    for x in samples() {
        let got = f32::from_bits(number(x).clamp(number(0.0), number(100.0)).bits);
        if x.is_nan() {
            assert!(got.is_nan());
        } else {
            assert_eq!(got, x.clamp(0.0, 100.0));
            assert!((0.0..=100.0).contains(&got));
            assert_eq!(number(got).clamp(number(0.0), number(100.0)), number(got));
        }
    }
    assert_eq!(number(62.5).clamp(number(0.0), number(100.0)), number(62.5));
    assert_eq!(number(-3.0).clamp(number(0.0), number(100.0)), number(0.0));
    assert_eq!(number(1e9).clamp(number(0.0), number(100.0)), number(100.0));
}

#[test]
fn floor_is_the_larger_number() {
    for x in samples() {
        let got = f32::from_bits(number(x).at_least_floor(number(0.001)).bits);
        assert_eq!(got, x.max(0.001), "{x}");
    }
}

#[test]
fn thousandths_are_those_of_the_float_product() {
    for x in samples() {
        assert_eq!(number(x).thousandths(), (x * 1000.0) as u64, "{x}");
    }
    // Every exponent, with fractions that round down, up and to even.
    for bits in (0..=u32::MAX).step_by(4093) {
        let x = f32::from_bits(bits);
        assert_eq!(Real { bits }.thousandths(), (x * 1000.0) as u64, "{x}");
    }
    // The numbers just below and above each thousandth.
    for milli in 0..=1000 {
        let near = (milli as f32 / 1000.0).to_bits();
        for bits in near.saturating_sub(20)..near + 20 {
            let x = f32::from_bits(bits);
            assert_eq!(Real { bits }.thousandths(), (x * 1000.0) as u64, "{x}");
        }
    }
    assert_eq!(number(0.8).thousandths(), 800);
    assert_eq!(number(0.9996).thousandths(), 999);
    assert_eq!(number(1.0).thousandths(), 1000);
    assert_eq!(number(-0.5).thousandths(), 0);
    assert_eq!(number(f32::NAN).thousandths(), 0);
    assert_eq!(number(1e30).thousandths(), u64::MAX);
}

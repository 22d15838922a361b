use rusty_rapidgzip::autotune::{AutoTune, Band, Policy};

const HIGH: f64 = 0.75;
const LOW: f64 = 0.0;

fn band(occ: f64) -> Band {
    if occ >= HIGH {
        Band::High
    } else if occ <= LOW {
        Band::Low
    } else {
        Band::Mid
    }
}

fn fast() -> Policy {
    // Short streaks / no cooldown for deterministic stepping in tests.
    Policy { shed_streak: 2, grow_streak: 3, cooldown: 0 }
}

#[test]
fn sheds_under_sustained_backpressure_down_to_floor() {
    let mut a = AutoTune::new(4, fast());
    // Each shed needs `shed_streak` (2) high samples.
    assert_eq!(a.observe(band(1.0)), None);
    assert_eq!(a.observe(band(1.0)), Some(3));
    assert_eq!(a.observe(band(1.0)), None);
    assert_eq!(a.observe(band(1.0)), Some(2));
    assert_eq!(a.observe(band(1.0)), None);
    assert_eq!(a.observe(band(1.0)), Some(1));
    // Floors at 1 no matter how long it stays full.
    for _ in 0..10 {
        assert_eq!(a.observe(band(1.0)), None);
    }
    assert_eq!(a.active(), 1);
}

#[test]
fn restores_when_downstream_starves_up_to_ceiling() {
    let mut a = AutoTune::new(4, fast());
    // Shed to 2 first.
    a.observe(band(1.0));
    a.observe(band(1.0)); // ->3
    a.observe(band(1.0));
    a.observe(band(1.0)); // ->2
    assert_eq!(a.active(), 2);
    // Empty channel for grow_streak (3) samples restores one.
    assert_eq!(a.observe(band(0.0)), None);
    assert_eq!(a.observe(band(0.0)), None);
    assert_eq!(a.observe(band(0.0)), Some(3));
    // ...and again up to the ceiling, then stops.
    assert_eq!(a.observe(band(0.0)), None);
    assert_eq!(a.observe(band(0.0)), None);
    assert_eq!(a.observe(band(0.0)), Some(4));
    for _ in 0..10 {
        assert_eq!(a.observe(band(0.0)), None);
    }
    assert_eq!(a.active(), 4);
}

#[test]
fn mid_band_holds_steady() {
    let mut a = AutoTune::new(8, fast());
    for _ in 0..50 {
        assert_eq!(a.observe(band(0.4)), None);
    }
    assert_eq!(a.active(), 8);
}

#[test]
fn cooldown_debounces_changes() {
    let p = Policy { shed_streak: 1, grow_streak: 1, cooldown: 3 };
    let mut a = AutoTune::new(8, p);
    assert_eq!(a.observe(band(1.0)), Some(7)); // sheds immediately (streak 1)
    // Next 3 ticks are swallowed by cooldown even though still full.
    assert_eq!(a.observe(band(1.0)), None);
    assert_eq!(a.observe(band(1.0)), None);
    assert_eq!(a.observe(band(1.0)), None);
    assert_eq!(a.observe(band(1.0)), Some(6));
}

#[test]
fn streak_decay_resists_flapping() {
    let mut a = AutoTune::new(4, fast());
    // One high sample, then mid-band wipes the partial streak, so the next
    // lone high sample can't tip a shed on its own.
    assert_eq!(a.observe(band(1.0)), None); // high_streak=1
    assert_eq!(a.observe(band(0.4)), None); // decays to 0
    assert_eq!(a.observe(band(1.0)), None); // high_streak=1 again, no shed yet
    assert_eq!(a.active(), 4);
}

/// A streak is of samples in a row: one in between starts it anew.
#[test]
fn a_sample_in_between_ends_a_streak() {
    let mut a = AutoTune::new(4, Policy { shed_streak: 3, grow_streak: 3, cooldown: 0 });
    for occ in [1.0, 1.0, 0.4, 1.0, 1.0] {
        assert_eq!(a.observe(band(occ)), None);
    }
    assert_eq!(a.active(), 4);
    assert_eq!(a.observe(band(1.0)), Some(3));
}

#[test]
fn ceiling_is_at_least_one() {
    let mut a = AutoTune::new(0, fast());
    assert_eq!(a.active(), 1);
    for _ in 0..5 {
        assert_eq!(a.observe(Band::High), None);
        assert_eq!(a.observe(Band::Low), None);
    }
    assert_eq!(a.active(), 1);
}

#[test]
fn default_policy_and_overrides() {
    let p = Policy::default();
    assert_eq!(p, Policy { shed_streak: 3, grow_streak: 8, cooldown: 4 });
    assert_eq!(
        p.with_overrides(Some(1), None, Some(0)),
        Policy { shed_streak: 1, grow_streak: 8, cooldown: 0 }
    );
    let mut a = AutoTune::new(2, p);
    assert_eq!(a.observe(Band::High), None);
    assert_eq!(a.observe(Band::High), None);
    assert_eq!(a.observe(Band::High), Some(1));
}

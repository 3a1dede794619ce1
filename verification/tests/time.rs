use signet::time::{security_condition, Schedule, TimeBound};

fn sched() -> Schedule {
    Schedule {
        epoch_ms: 1_000_000,
        interval_ms: 30_000,
        disclosure_delay: 2,
    }
}

#[test]
fn interval_arithmetic_round_trips() {
    let s = sched();
    assert_eq!(s.interval_at(s.epoch_ms), 0);
    assert_eq!(s.interval_at(s.epoch_ms + 29_999), 0);
    assert_eq!(s.interval_at(s.epoch_ms + 30_000), 1);
    assert_eq!(s.interval_start_ms(3), s.epoch_ms + 90_000);
}

#[test]
fn times_before_epoch_clamp() {
    assert_eq!(sched().interval_at(0), 0);
}

#[test]
fn fresh_frame_accepted() {
    let s = sched();
    let arrival = TimeBound::exact(s.interval_start_ms(5) + 100);
    assert!(security_condition(&s, 5, &arrival));
}

#[test]
fn frame_arriving_after_disclosure_rejected() {
    let s = sched();
    let arrival = TimeBound::exact(s.disclosure_ms(5));
    assert!(!security_condition(&s, 5, &arrival));
    assert!(!security_condition(
        &s,
        5,
        &TimeBound::exact(s.disclosure_ms(5) + 1)
    ));
}

#[test]
fn uncertainty_counts_against_the_receiver() {
    let s = sched();
    let center = s.disclosure_ms(5) - 1_000;
    assert!(security_condition(&s, 5, &TimeBound::exact(center)));
    assert!(!security_condition(&s, 5, &TimeBound::new(center, 5_000)));
}

#[test]
fn wider_disclosure_delay_tolerates_more_uncertainty() {
    let tight = sched();
    let loose = Schedule {
        disclosure_delay: 10,
        ..tight
    };
    let arrival = TimeBound::new(tight.interval_start_ms(5) + 1_000, 60_000);
    assert!(!security_condition(&tight, 5, &arrival));
    assert!(security_condition(&loose, 5, &arrival));
}

#[test]
fn intersect_takes_the_tighter_constraint() {
    let wide = TimeBound::new(1_000, 500);
    let tight = TimeBound::new(1_100, 50);
    let both = wide.intersect(&tight).unwrap();
    assert_eq!(
        both,
        TimeBound {
            earliest_ms: 1_050,
            latest_ms: 1_150
        }
    );
    assert!(both.width_ms() < wide.width_ms());
}

#[test]
fn disjoint_bounds_intersect_to_nothing() {
    let a = TimeBound::new(1_000, 10);
    let b = TimeBound::new(9_000, 10);
    assert!(a.intersect(&b).is_none());
}

#[test]
fn bounds_saturate_at_the_ends_of_the_timeline() {
    assert_eq!(
        TimeBound::new(10, 100),
        TimeBound {
            earliest_ms: 0,
            latest_ms: 110
        }
    );
    assert_eq!(TimeBound::new(u64::MAX - 5, 100).latest_ms, u64::MAX);
    assert_eq!(TimeBound::exact(42).width_ms(), 0);
    assert_eq!(TimeBound::new(1_000, 250).width_ms(), 500);
}

#[test]
fn default_schedule_is_thirty_second_intervals_two_behind() {
    let s = Schedule::default_at(7);
    assert_eq!(
        s,
        Schedule {
            epoch_ms: 7,
            interval_ms: 30_000,
            disclosure_delay: 2
        }
    );
    assert_eq!(s.disclosure_ms(5), 7 + 7 * 30_000);
}

#[test]
fn an_interval_start_lies_in_that_interval() {
    let s = sched();
    for i in [0u32, 1, 17, 1000] {
        assert_eq!(s.interval_at(s.interval_start_ms(i)), i);
        assert_eq!(s.interval_at(s.interval_start_ms(i + 1) - 1), i);
    }
}

#[test]
fn intersection_is_never_wider_than_either_side() {
    let a = TimeBound::new(5_000, 700);
    let b = TimeBound::new(5_300, 900);
    let both = a.intersect(&b).unwrap();
    assert!(both.width_ms() <= a.width_ms());
    assert!(both.width_ms() <= b.width_ms());
    assert_eq!(both.earliest_ms, 4_400);
    assert_eq!(both.latest_ms, 5_700);
}

#[test]
fn more_uncertainty_never_helps() {
    let s = sched();
    let center = s.disclosure_ms(9) - 3_000;
    let mut accepted_before = true;
    for u in [0u64, 1_000, 2_999, 3_000, 10_000] {
        let ok = security_condition(&s, 9, &TimeBound::new(center, u));
        assert!(accepted_before || !ok);
        accepted_before = ok;
    }
    assert!(security_condition(&s, 9, &TimeBound::new(center, 2_999)));
    assert!(!security_condition(&s, 9, &TimeBound::new(center, 3_000)));
}

#[test]
fn claimed_intervals_near_the_top_never_overflow() {
    let s = sched();
    assert!(!security_condition(&s, u32::MAX, &TimeBound::exact(u64::MAX)));
    assert!(security_condition(&s, u32::MAX, &TimeBound::exact(0)));
}

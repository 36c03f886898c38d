use ta::ErrorKind;
use ta::Low;
use ta::Minimum;
use ta::Sample;

/// Wraps an `f64` into the bit-pattern sample the tracker works on.
fn s(x: f64) -> Sample {
    Sample::from_bits(x.to_bits())
}

/// Reads a sample back as an `f64`.
fn f(v: Sample) -> f64 {
    f64::from_bits(v.bits)
}

/// A record with a `low` field, as a richer per-sample input.
struct Bar {
    low: f64,
}

impl Bar {
    fn new() -> Bar {
        Bar { low: 0.0 }
    }

    fn low(mut self, low: f64) -> Bar {
        self.low = low;
        self
    }
}

impl Low for Bar {
    // The ghost view of the accessor; erased at run time, but the trait
    // still lists it, so a plain implementation spells it out the same way.
    fn low_spec(&self) -> Sample {
        Sample { bits: self.low.to_bits() }
    }

    fn low(&self) -> Sample {
        Sample { bits: self.low.to_bits() }
    }
}

fn bar(low: f64) -> Bar {
    Bar::new().low(low)
}

#[test]
fn test_new() {
    assert!(Minimum::new(0).is_err());
    assert!(Minimum::new(1).is_ok());
}

#[test]
fn test_next() {
    let mut min = Minimum::new(3).unwrap();

    assert_eq!(f(min.next(s(4.0))), 4.0);
    assert_eq!(f(min.next(s(1.2))), 1.2);
    assert_eq!(f(min.next(s(5.0))), 1.2);
    assert_eq!(f(min.next(s(3.0))), 1.2);
    assert_eq!(f(min.next(s(4.0))), 3.0);
    assert_eq!(f(min.next(s(6.0))), 3.0);
    assert_eq!(f(min.next(s(7.0))), 4.0);
    assert_eq!(f(min.next(s(8.0))), 6.0);
    assert_eq!(f(min.next(s(-9.0))), -9.0);
    assert_eq!(f(min.next(s(0.0))), -9.0);
}

#[test]
fn test_next_with_bars() {
    let mut min = Minimum::new(3).unwrap();

    assert_eq!(f(min.next_low(&bar(4.0))), 4.0);
    assert_eq!(f(min.next_low(&bar(4.0))), 4.0);
    assert_eq!(f(min.next_low(&bar(1.2))), 1.2);
    assert_eq!(f(min.next_low(&bar(5.0))), 1.2);
}

#[test]
fn test_reset() {
    let mut min = Minimum::new(10).unwrap();

    assert_eq!(f(min.next(s(5.0))), 5.0);
    assert_eq!(f(min.next(s(7.0))), 5.0);

    min.reset();
    assert_eq!(f(min.next(s(8.0))), 8.0);
}

#[test]
fn test_default() {
    Minimum::default();
}

#[test]
fn test_display() {
    let indicator = Minimum::new(10).unwrap();
    assert_eq!(indicator.render(), "MIN(10)");
}

#[test]
fn test_invalid_parameter_kind() {
    match Minimum::new(0) {
        Err(e) => assert!(matches!(e.kind, ErrorKind::InvalidParameter)),
        Ok(_) => panic!("a zero window length must be rejected"),
    }
}

#[test]
fn test_tie_earliest() {
    let mut min = Minimum::new(3).unwrap();

    assert_eq!(f(min.next(s(4.0))), 4.0);
    assert_eq!(f(min.next(s(4.0))), 4.0);
    assert_eq!(f(min.next(s(1.2))), 1.2);
}

#[test]
fn test_zero_tie_keeps_earliest() {
    let mut min = Minimum::new(2).unwrap();

    let first = min.next(s(0.0));
    assert_eq!(first.bits, (0.0f64).to_bits());
    // A negative zero compares equal, so the earlier-written positive zero
    // stays the reported minimum.
    let second = min.next(s(-0.0));
    assert_eq!(second.bits, (0.0f64).to_bits());
}

#[test]
fn test_window_minimum_brute_force() {
    let samples = [
        3.5, -1.0, 2.25, 7.0, -1.0, 0.5, 9.75, -3.125, 4.0, 4.0, -3.125, 11.5, 0.0, -0.5, 2.0,
    ];
    let length = 4usize;
    let mut min = Minimum::new(length as u32).unwrap();
    for k in 0..samples.len() {
        let got = f(min.next(s(samples[k])));
        let lo = if k + 1 >= length { k + 1 - length } else { 0 };
        let mut expected = f64::INFINITY;
        for j in lo..(k + 1) {
            if samples[j] < expected {
                expected = samples[j];
            }
        }
        assert_eq!(got, expected);
    }
}

#[test]
fn test_reset_replays_like_fresh() {
    let samples = [2.0, 8.0, -1.5, 3.0, 3.0, 0.25, -7.0, 6.0];
    let mut tracker = Minimum::new(3).unwrap();
    let mut first_run = Vec::new();
    for x in samples.iter() {
        first_run.push(f(tracker.next(s(*x))));
    }
    tracker.reset();
    let mut second_run = Vec::new();
    for x in samples.iter() {
        second_run.push(f(tracker.next(s(*x))));
    }
    assert_eq!(first_run, second_run);
}

#[test]
fn test_default_matches_new_14() {
    let samples = [5.0, 3.0, 9.0, -2.0, 4.5, 4.5, 0.0, 1.0, -2.0, 8.0, 7.0, 6.0, 5.5, 5.0, 10.0];
    let mut by_default = Minimum::default();
    let mut explicit = Minimum::new(14).unwrap();
    assert_eq!(by_default.length(), 14);
    assert_eq!(by_default.render(), "MIN(14)");
    for x in samples.iter() {
        assert_eq!(f(by_default.next(s(*x))), f(explicit.next(s(*x))));
    }
}

#[test]
fn test_nan_never_becomes_minimum() {
    let mut min = Minimum::new(3).unwrap();

    assert_eq!(f(min.next(s(5.0))), 5.0);
    assert_eq!(f(min.next(s(f64::NAN))), 5.0);
    assert_eq!(f(min.next(s(7.0))), 5.0);
}

#[test]
fn test_nan_rescan_reports_sentinel() {
    // The NaN lands in the minimum slot and forces a rescan; nothing beats
    // the sentinel, so the rescan settles on a sentinel slot, never the NaN.
    let mut min = Minimum::new(2).unwrap();
    assert_eq!(f(min.next(s(f64::NAN))), f64::INFINITY);
    assert_eq!(f(min.next(s(3.0))), 3.0);
}

#[test]
fn test_all_nan_window_reports_nan() {
    // When every slot holds a NaN there is nothing valid to point at; the
    // degenerate slot-0 choice surfaces the NaN.
    let mut min = Minimum::new(1).unwrap();
    assert!(f(min.next(s(f64::NAN))).is_nan());
}

#[test]
fn test_infinite_samples() {
    let mut min = Minimum::new(2).unwrap();

    assert_eq!(f(min.next(s(f64::INFINITY))), f64::INFINITY);
    assert_eq!(f(min.next(s(f64::NEG_INFINITY))), f64::NEG_INFINITY);
    assert_eq!(f(min.next(s(1.0))), f64::NEG_INFINITY);
    assert_eq!(f(min.next(s(2.0))), 1.0);
}

#[test]
fn test_render_lengths() {
    assert_eq!(Minimum::new(1).unwrap().render(), "MIN(1)");
    assert_eq!(Minimum::new(907).unwrap().render(), "MIN(907)");
}

#[test]
fn test_state_round_trip() {
    let mut tracker = Minimum::new(3).unwrap();
    for x in [4.0, 9.5, -2.0, 3.0].iter() {
        tracker.next(s(*x));
    }
    let restored = Minimum::from_parts(
        tracker.length(),
        tracker.buffer().clone(),
        tracker.min_index(),
        tracker.cur_index(),
    );
    let mut restored = restored.expect("a captured state must restore");
    for x in [1.5, -8.0, 0.0, 2.0].iter() {
        assert_eq!(f(restored.next(s(*x))), f(tracker.next(s(*x))));
    }
}

#[test]
fn test_from_parts_rejects_invalid_states() {
    // Zero length.
    assert!(Minimum::from_parts(0, vec![], 0, 0).is_none());
    // Buffer size differs from the length.
    assert!(Minimum::from_parts(2, vec![(1.0f64).to_bits()], 0, 0).is_none());
    // Indices out of range.
    let buf = vec![(1.0f64).to_bits(), (2.0f64).to_bits()];
    assert!(Minimum::from_parts(2, buf.clone(), 2, 0).is_none());
    assert!(Minimum::from_parts(2, buf.clone(), 0, 2).is_none());
    // The minimum pointer must point at a smallest slot.
    assert!(Minimum::from_parts(2, buf.clone(), 1, 0).is_none());
    assert!(Minimum::from_parts(2, buf, 0, 1).is_some());
}

#[test]
fn test_length_getter() {
    assert_eq!(Minimum::new(7).unwrap().length(), 7);
}

use kitsune_dht::arc_range::DhtArcRange;
use kitsune_dht::arq::{approximate_arq, is_full, power_and_count_from_length,
    power_and_count_from_length_exact, Arq, ArqBounds, ArqSize};
use kitsune_dht::spacetime::{Loc, SpaceOffset, Topology};
use kitsune_dht::strat::ArqStrat;

#[test]
fn test_is_full() {
    {
        let topo = Topology::unit_zero();
        assert!(!is_full(&topo, 31, 1));
        assert!(is_full(&topo, 31, 2));
        assert!(is_full(&topo, 31, 3));

        assert!(!is_full(&topo, 30, 3));
        assert!(is_full(&topo, 30, 4));
        assert!(is_full(&topo, 29, 8));

        assert!(is_full(&topo, 1, 2u32.pow(31)));
        assert!(!is_full(&topo, 1, 2u32.pow(31) - 1));
        assert!(is_full(&topo, 2, 2u32.pow(30)));
        assert!(!is_full(&topo, 2, 2u32.pow(30) - 1));
    }
    {
        let topo = Topology::standard_epoch_full();
        assert!(!is_full(&topo, 31 - 12, 1));
        assert!(is_full(&topo, 31 - 12, 2));

        // power too high, doesn't panic
        assert!(is_full(&topo, 31, 2));
        // power too low, doesn't panic
        assert!(!is_full(&topo, 1, 2));
    }
}

#[test]
fn test_full_intervals() {
    let topo = Topology::unit_zero();
    let full1 = Arq::<Loc>::new_full(&topo, 0u32.into(), 29);
    let full2 = Arq::<Loc>::new_full(&topo, 2u32.pow(31).into(), 25);
    assert!(matches!(full1.to_dht_arc_range(&topo), DhtArcRange::Full));
    assert!(matches!(full2.to_dht_arc_range(&topo), DhtArcRange::Full));
}

#[test]
fn arq_requantize() {
    let c = Arq {
        start: Loc::from(42u32),
        power: 20,
        count: 10,
    };

    let rq = |c: &Arq<Loc>, p| (*c).requantize(p);

    assert_eq!(rq(&c, 18).map(|c| c.count), Some(40));
    assert_eq!(rq(&c, 19).map(|c| c.count), Some(20));
    assert_eq!(rq(&c, 20).map(|c| c.count), Some(10));
    assert_eq!(rq(&c, 21).map(|c| c.count), Some(5));
    assert_eq!(rq(&c, 22).map(|c| c.count), None);
    assert_eq!(rq(&c, 23).map(|c| c.count), None);
    assert_eq!(rq(&c, 24).map(|c| c.count), None);

    let c = Arq {
        start: Loc::from(42u32),
        power: 20,
        count: 256,
    };

    assert_eq!(rq(&c, 12).map(|c| c.count), Some(256 * 256));
    assert_eq!(rq(&c, 28).map(|c| c.count), Some(1));
    assert_eq!(rq(&c, 29).map(|c| c.count), None);
}

#[test]
fn test_to_bounds() {
    let topo = Topology::unit_zero();
    let pow: u8 = 4;
    {
        let a = Arq::new(pow, Loc::from(2u32.pow(pow.into()) - 1), 16);
        let b = a.to_bounds(&topo);
        assert_eq!(b.offset(), SpaceOffset(0));
        assert_eq!(b.count(), 16);
    }
    {
        let a = Arq::new(pow, Loc::from(4u32), 18);
        let b = a.to_bounds(&topo);
        assert_eq!(b.count(), 18);
    }
}

#[test]
fn from_interval_regression() {
    let topo = Topology::unit_zero();
    let i = DhtArcRange::Bounded(4294967040u32.into(), 511u32.into());
    assert!(ArqBounds::from_interval(&topo, 8, i).is_some());
}

#[test]
fn requantize_round_trips_when_lossless() {
    let c = Arq {
        start: Loc::from(42u32),
        power: 20,
        count: 10,
    };
    let up = c.requantize(21).unwrap();
    assert_eq!(up.count, 5);
    let back = up.requantize(20).unwrap();
    assert_eq!(back.count, c.count);
    assert_eq!(back.power, c.power);
    assert_eq!(back.start.0, c.start.0);
}

#[test]
fn test_power_and_count_from_length() {
    let topo = Topology::standard_epoch_full();
    let cases: [(u64, (u8, u32)); 5] = [
        (2u64.pow(30), (14, 16)),
        (2u64.pow(31), (15, 16)),
        (2u64.pow(32), (16, 16)),
        (128 * 2u64.pow(24), (15, 16)),
        ((128 + 16) * 2u64.pow(24), (16, 9)),
    ];
    for (len, expected) in cases {
        let ArqSize { power, count } = power_and_count_from_length(&topo, len, 16);
        assert_eq!((power, count), expected);
    }
}

#[test]
fn test_power_and_count_from_length_exact() {
    let topo = Topology::standard_epoch_full();
    let cases: [(u64, (u8, u32)); 5] = [
        (2u64.pow(30), (15, 8)),
        (2u64.pow(31), (16, 8)),
        (2u64.pow(32), (17, 8)),
        ((128 + 16 + 8) * 2u64.pow(24), (15, 19)),
        ((128 + 16 + 8 + 4 + 2) * 2u64.pow(24), (13, 79)),
    ];
    for (len, expected) in cases {
        let ArqSize { power, count } = power_and_count_from_length_exact(&topo, len, 8).unwrap();
        assert_eq!((power, count), expected);
        assert_eq!(
            2u64.pow(power as u32 + topo.quantum_power as u32) * count as u64,
            len
        );
    }
}

#[test]
fn exact_fit_rejects_unquantized_length() {
    let topo = Topology::standard_epoch_full();
    // one more than a multiple of the quantum cannot be represented
    assert!(power_and_count_from_length_exact(&topo, 2u64.pow(30) + 1, 8).is_none());
}

#[test]
fn approximate_arq_length_round_trip() {
    let topo = Topology::standard_epoch_full();
    let strat = ArqStrat::default();
    for len in [0u64, 4096, 2u64.pow(20), 2u64.pow(30), 2u64.pow(32)] {
        let arq = approximate_arq(&topo, &strat, Loc::from(1000u32), len);
        let range = arq.to_dht_arc_range(&topo);
        assert_eq!(arq.absolute_length(&topo), range.length());
    }
}

#[test]
fn to_dht_arc_matches_absolute_length() {
    let topo = Topology::standard_epoch_full();
    let strat = ArqStrat::default();
    let arq = approximate_arq(&topo, &strat, Loc::from(3_000_000u32), 2u64.pow(28));
    let arc = arq.to_dht_arc(&topo);
    assert_eq!(arc.length(), arq.absolute_length(&topo));
    assert_eq!(arc.start_loc().0, 3_000_000);
}

#[test]
fn bounds_preserve_center_ordering() {
    let topo = Topology::standard_epoch_full();
    let centers: [u32; 5] = [0, 5_000, 80_000, 2_000_000, 4_000_000_000];
    let mut prev: Option<u32> = None;
    for c in centers {
        let a = Arq::new(6, Loc::from(c), 4);
        let b = a.to_bounds(&topo);
        if let Some(p) = prev {
            assert!(p <= b.start.0);
        }
        prev = Some(b.start.0);
    }
}

#[test]
fn from_interval_round_trip() {
    let topo = Topology::standard_epoch_full();
    let arq = ArqBounds {
        start: SpaceOffset(7),
        power: 3,
        count: 5,
    };
    let interval = arq.to_dht_arc_range(&topo);
    let back = ArqBounds::from_interval(&topo, 3, interval).unwrap();
    assert!(ArqBounds::equivalent(&topo, &arq, &back));
}

#[test]
fn from_interval_rejects_unaligned() {
    let topo = Topology::unit_zero();
    // a left edge off the 256-wide grid cannot be represented losslessly
    let i = DhtArcRange::Bounded(1u32.into(), 512u32.into());
    assert!(ArqBounds::from_interval(&topo, 8, i).is_none());
    let (rounded, lossy) = ArqBounds::from_interval_rounded(&topo, 8, i);
    assert!(lossy);
    assert_eq!(rounded.start, SpaceOffset(0));
}

#[test]
fn upshift_downshift() {
    let a = Arq {
        start: Loc::from(8u32),
        power: 3,
        count: 6,
    };
    let down = a.downshift();
    assert_eq!((down.power, down.count), (2, 12));
    let up = a.upshift(false).unwrap();
    assert_eq!((up.power, up.count), (4, 3));
    let odd = Arq {
        start: Loc::from(8u32),
        power: 3,
        count: 5,
    };
    assert!(odd.upshift(false).is_none());
    let forced = odd.upshift(true).unwrap();
    assert_eq!((forced.power, forced.count), (4, 3));
}

#[test]
fn segments_enumerate_chunks() {
    let a = ArqBounds {
        start: SpaceOffset(10),
        power: 2,
        count: 3,
    };
    let segs = a.segments();
    assert_eq!(segs.len(), 3);
    assert_eq!(segs[0].offset, 10);
    assert_eq!(segs[1].offset, 11);
    assert_eq!(segs[2].offset, 12);
    assert_eq!(segs[0].power, 2);
}

#[test]
fn arq_size_conversions() {
    let empty = ArqSize::empty();
    assert_eq!((empty.power, empty.count), (0, 0));
    let arq = empty.to_arq(Loc::from(9u32));
    assert_eq!(arq.start.0, 9);
    assert!(arq.is_empty());
    let sz = ArqSize::from(Arq::new(5, Loc::from(1u32), 12));
    assert_eq!((sz.power, sz.count), (5, 12));
    let approx = ArqSize::from_half_len(2u32.pow(29));
    assert!(approx.count > 0);
}

#[test]
fn new_full_max_is_full() {
    let topo = Topology::standard_epoch_full();
    let strat = ArqStrat::default();
    let arq = Arq::<Loc>::new_full_max(&topo, &strat, Loc::from(0u32));
    assert!(arq.is_full(&topo));
    assert_eq!(arq.power, 16);
}

#[test]
fn located_equivalence() {
    let topo = Topology::unit_zero();
    let a = Arq::new(4, Loc::from(32u32), 6);
    let b = a.requantize(3).unwrap();
    assert!(Arq::<Loc>::equivalent(&topo, &a, &b));
    let c = Arq::new(4, Loc::from(48u32), 6);
    assert!(!Arq::<Loc>::equivalent(&topo, &a, &c));
}

#[test]
fn refit_preserves_absolute_length() {
    let topo = Topology::standard_epoch_full();
    let strat = ArqStrat::default();
    let arq = approximate_arq(&topo, &strat, Loc::from(123u32), 2u64.pow(29) + 4096 * 7);
    let arc = arq.to_dht_arc(&topo);
    let arq2 = Arq::from_dht_arc_approximate(&topo, &strat, &arc);
    assert_eq!(arq2.absolute_length(&topo), arq.absolute_length(&topo));
    assert!(Arq::<Loc>::equivalent(&topo, &arq, &arq2));
}

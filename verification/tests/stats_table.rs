use gameai::stats::Stats;
use gameai::strategies::playout::Snapshot;
use gameai::table::StatsTable;

#[test]
fn deltas_have_the_documented_counters() {
    assert_eq!(Stats::zero(), Stats { wins: 0, losses: 0, visits: 0 });
    assert_eq!(Stats::win(), Stats { wins: 1, losses: 0, visits: 1 });
    assert_eq!(Stats::loss(), Stats { wins: 0, losses: 1, visits: 1 });
    assert_eq!(Stats::tie(), Stats { wins: 0, losses: 0, visits: 1 });
    assert_eq!(Stats::delta(None), Stats::tie());
    assert_eq!(Stats::delta(Some(true)), Stats::win());
    assert_eq!(Stats::delta(Some(false)), Stats::loss());
}

#[test]
fn addition_is_elementwise() {
    let a = Stats { wins: 3, losses: 4, visits: 10 };
    let b = Stats { wins: 1, losses: 2, visits: 5 };
    assert_eq!(a.add(b), Stats { wins: 4, losses: 6, visits: 15 });
    assert_eq!(b.add(a), a.add(b));
}

#[test]
fn adding_zero_changes_nothing() {
    let a = Stats { wins: 7, losses: 2, visits: 11 };
    assert_eq!(a.add(Stats::zero()), a);
    assert_eq!(Stats::zero().add(a), a);
}

#[test]
fn checked_addition_reports_overflow_of_visits() {
    let big = Stats { wins: 0, losses: 0, visits: usize::MAX };
    assert_eq!(big.checked_add(Stats::tie()), None);
    assert_eq!(
        Stats::win().checked_add(Stats::loss()),
        Some(Stats { wins: 1, losses: 1, visits: 2 })
    );
}

#[test]
fn new_table_is_empty() {
    let t = StatsTable::new();
    assert_eq!(t.len(), 0);
    assert_eq!(t.visits_absorbed(), 0);
    assert_eq!(t.get(5), None);
}

#[test]
fn absorb_adds_to_the_record_of_the_key() {
    let mut t = StatsTable::new();
    assert!(t.absorb(9, Stats::win()));
    assert!(t.absorb(9, Stats::loss()));
    assert!(t.absorb(4, Stats::tie()));
    assert_eq!(t.get(9), Some(Stats { wins: 1, losses: 1, visits: 2 }));
    assert_eq!(t.get(4), Some(Stats { wins: 0, losses: 0, visits: 1 }));
    assert_eq!(t.get(1), None);
    assert_eq!(t.len(), 2);
    assert_eq!(t.visits_absorbed(), 3);
    assert_eq!(t.stats(9), t.get(9));
}

#[test]
fn absorb_refuses_what_does_not_fit() {
    let mut t = StatsTable::new();
    assert!(t.absorb(1, Stats { wins: 0, losses: 0, visits: usize::MAX - 1 }));
    assert!(!t.absorb(2, Stats { wins: 1, losses: 1, visits: 2 }));
    assert_eq!(t.get(2), None);
    assert_eq!(t.visits_absorbed(), usize::MAX - 1);
    assert!(t.absorb(2, Stats::win()));
    assert_eq!(t.get(2), Some(Stats::win()));
}

#[test]
fn merge_conserves_the_deltas_of_four_workers() {
    let mut t = StatsTable::new();
    for _ in 0..4 {
        let batch: Vec<(u128, Stats)> = (0..1000).map(|_| (77u128, Stats::win())).collect();
        assert!(t.merge(&batch));
    }
    assert_eq!(t.get(77), Some(Stats { wins: 4000, losses: 0, visits: 4000 }));
    assert_eq!(t.len(), 1);
}

#[test]
fn merge_sums_per_key() {
    let mut t = StatsTable::new();
    let first = vec![(1u128, Stats::win()), (2, Stats::loss()), (1, Stats::tie())];
    let second = vec![(2u128, Stats::win()), (3, Stats::tie())];
    assert!(t.merge(&first));
    assert_eq!(t.get(1), Some(Stats { wins: 1, losses: 0, visits: 2 }));
    assert!(t.merge(&second));
    assert_eq!(t.get(1), Some(Stats { wins: 1, losses: 0, visits: 2 }));
    assert_eq!(t.get(2), Some(Stats { wins: 1, losses: 1, visits: 2 }));
    assert_eq!(t.get(3), Some(Stats { wins: 0, losses: 0, visits: 1 }));
    assert_eq!(t.visits_absorbed(), 5);
}

#[test]
fn merge_refuses_a_whole_batch_that_does_not_fit() {
    let mut t = StatsTable::new();
    assert!(t.absorb(1, Stats { wins: 0, losses: 0, visits: usize::MAX - 1 }));
    let batch = vec![(5u128, Stats::win()), (6, Stats::win())];
    assert!(!t.merge(&batch));
    assert_eq!(t.get(5), None);
    assert_eq!(t.get(6), None);
    assert_eq!(t.len(), 1);
}

#[test]
fn records_never_shrink_and_stay_well_formed() {
    let mut t = StatsTable::new();
    let mut last = Stats::zero();
    for round in 0..50usize {
        let d = match round % 3 {
            0 => Stats::win(),
            1 => Stats::loss(),
            _ => Stats::tie(),
        };
        assert!(t.merge(&vec![(8u128, d), (round as u128, Stats::tie())]));
        let now = t.get(8).unwrap();
        assert!(now.wins >= last.wins && now.losses >= last.losses && now.visits >= last.visits);
        assert!(now.wins + now.losses <= now.visits);
        last = now;
    }
}

#[test]
fn snapshot_is_a_copy() {
    let mut t = StatsTable::new();
    assert!(t.absorb(3, Stats::win()));
    let copy = t.snapshot();
    assert!(t.absorb(3, Stats::win()));
    assert_eq!(copy.get(3), Some(Stats::win()));
    assert_eq!(t.get(3), Some(Stats { wins: 2, losses: 0, visits: 2 }));
    assert_eq!(copy.visits_absorbed(), 1);
}

use flechs::preintegral::{Integrable, Preintegral};
use flechs::rational::Rational;
use flechs::time::Instant;
use flechs::timeline::{Timeline, TimelineError};
use flechs::util::{lower_bound, upper_bound};
use flechs::value::{merge_beats_and_tempo, Beat, RhythmChange, Tempo};

#[test]
fn bounds_delimit_the_equal_run() {
    let source: Vec<usize> = vec![1, 3, 3, 3, 5, 9];
    let lb = lower_bound(&source, &3);
    let ub = upper_bound(&source, &3);
    assert!(lb <= ub);
    assert_eq!((lb, ub), (1, 4));
    for (i, v) in source.iter().enumerate() {
        assert_eq!(lb <= i && i < ub, *v == 3);
    }
    let lb = lower_bound(&source, &4);
    let ub = upper_bound(&source, &4);
    assert!(lb <= ub);
    assert_eq!((lb, ub), (4, 4));
}

#[test]
fn latest_item_before_first_key_is_none() {
    let mut tl: Timeline<usize, u32> = Timeline::new();
    assert_eq!(tl.latest_item(0), None);
    tl.append(5, 50);
    tl.append(8, 80);
    assert_eq!(tl.latest_item(4), None);
    assert_eq!(tl.latest_item(5), Some(&50));
    assert_eq!(tl.latest_item(7), Some(&50));
    assert_eq!(tl.latest_item(8), Some(&80));
}

#[test]
fn merge_keys_are_exactly_the_union() {
    let mut a: Timeline<usize, u32> = Timeline::new();
    a.append(0, 10);
    a.append(4, 14);
    a.append(6, 16);
    a.append(8, 18);
    let mut b: Timeline<usize, u32> = Timeline::new();
    b.append(1, 21);
    b.append(5, 25);
    b.append(7, 27);
    b.append(9, 29);

    let merged = a.merge(b).expect("disjoint merge succeeds");
    assert_eq!(merged.times(), vec![0, 1, 4, 5, 6, 7, 8, 9]);
    for (i, pair) in merged.items().iter().enumerate() {
        // Disjoint keys: exactly one side present per entry.
        assert!(pair.0.is_some() != pair.1.is_some(), "entry {} one-sided", i);
    }
}

#[test]
fn merge_pairs_both_sides_at_shared_keys() {
    let mut a: Timeline<usize, u32> = Timeline::new();
    a.append(0, 10);
    a.append(4, 14);
    let mut b: Timeline<usize, u32> = Timeline::new();
    b.append(4, 24);
    b.append(6, 26);

    let merged = a.merge(b).expect("merge succeeds");
    assert_eq!(merged.times(), vec![0, 4, 6]);
    assert_eq!(merged.items()[0], (Some(10), None));
    assert_eq!(merged.items()[1], (Some(14), Some(24)));
    assert_eq!(merged.items()[2], (None, Some(26)));
}

#[test]
fn merge_with_duplicate_keys_fails() {
    let mut a: Timeline<usize, u32> = Timeline::new();
    a.insert(3, 1);
    a.insert(3, 2);
    let mut b: Timeline<usize, u32> = Timeline::new();
    b.append(0, 9);
    assert_eq!(a.merge(b).unwrap_err(), TimelineError::HasDuplicateTimes);

    let mut a: Timeline<usize, u32> = Timeline::new();
    a.append(0, 9);
    let mut b: Timeline<usize, u32> = Timeline::new();
    b.insert(7, 1);
    b.insert(7, 2);
    assert_eq!(a.merge(b).unwrap_err(), TimelineError::HasDuplicateTimes);
}

#[test]
fn fetch_agrees_with_naive_integration() {
    let times: Vec<usize> = vec![0, 4, 6, 8];
    let rates = vec![
        Rational::new(4, 1),
        Rational::new(7, 1),
        Rational::new(4, 1),
        Rational::new(7, 2),
    ];
    let mut tl: Timeline<usize, Beat> = Timeline::new();
    for (t, r) in times.iter().zip(rates.iter()) {
        tl.append(*t, Beat(*r));
    }
    let pitl = Preintegral::new(tl);

    for query in 0usize..=12 {
        // Brute force: sum the contribution of every breakpoint pair below
        // the query, then the partial span from the governing breakpoint.
        let mut base = 0;
        while base + 1 < times.len() && times[base + 1] <= query {
            base += 1;
        }
        let mut total = Rational::new(0, 1);
        for i in 0..base {
            let piece = Beat(rates[i]).integrate_within(times[i], times[i + 1]);
            total = Beat::accumlate(total, piece);
        }
        let last = Beat(rates[base]).integrate_within(times[base], query);
        total = Beat::accumlate(total, last);
        assert_eq!(pitl.fetch(query), total, "naive integration agrees at {}", query);
    }
}

#[test]
fn preintegral_build_is_deterministic() {
    let mut one: Timeline<usize, Beat> = Timeline::new();
    let mut two: Timeline<usize, Beat> = Timeline::new();
    for (t, n, d) in [(0usize, 4u32, 1u32), (4, 7, 1), (8, 7, 2)] {
        one.append(t, Beat(Rational::new(n, d)));
        two.append(t, Beat(Rational::new(n, d)));
    }
    let p1 = Preintegral::new(one);
    let p2 = Preintegral::new(two);
    assert_eq!(p1.integrated_values, p2.integrated_values);
    assert_eq!(p1.times, p2.times);
}

#[test]
fn submeasure_at_or_above_one_always_fails() {
    for (n, d) in [(4u32, 4u32), (8, 4), (5, 4), (1, 1), (100, 3)] {
        let sub = Rational::new(n, d);
        assert!(Instant::new(0, sub).is_err(), "{}/{} must be rejected", n, d);
        assert!(Instant::new(9, sub).is_err(), "{}/{} must be rejected", n, d);
    }
}

#[test]
fn rhythm_change_merge_works() {
    let mut beats: Timeline<usize, Beat> = Timeline::new();
    beats.append(0, Beat(Rational::new(4, 1)));
    beats.append(2, Beat(Rational::new(3, 1)));
    let mut tempos: Timeline<Instant, Tempo> = Timeline::new();
    tempos.append(Instant::new_parts(0, 0, 1), Tempo(Rational::new(120, 1)));
    tempos.append(Instant::new_parts(1, 1, 2), Tempo(Rational::new(140, 1)));

    let merged = merge_beats_and_tempo(beats, tempos).expect("aligned inputs merge");
    assert_eq!(
        merged.times(),
        vec![
            Instant::new_parts(0, 0, 1),
            Instant::new_parts(1, 1, 2),
            Instant::new_parts(2, 0, 1),
        ]
    );
    let expect = vec![
        RhythmChange(Beat(Rational::new(4, 1)), Tempo(Rational::new(120, 1))),
        RhythmChange(Beat(Rational::new(4, 1)), Tempo(Rational::new(140, 1))),
        RhythmChange(Beat(Rational::new(3, 1)), Tempo(Rational::new(140, 1))),
    ];
    assert_eq!(merged.items().to_vec(), expect);
}

#[test]
fn rhythm_merge_reports_misalignment() {
    // Tempo timeline does not start at time zero.
    let mut beats: Timeline<usize, Beat> = Timeline::new();
    beats.append(0, Beat(Rational::new(4, 1)));
    let mut tempos: Timeline<Instant, Tempo> = Timeline::new();
    tempos.append(Instant::new_parts(1, 0, 1), Tempo(Rational::new(120, 1)));
    assert_eq!(
        merge_beats_and_tempo(beats, tempos).unwrap_err(),
        TimelineError::NotZeroAligned
    );

    // Beat timeline does not start at measure zero.
    let mut beats: Timeline<usize, Beat> = Timeline::new();
    beats.append(3, Beat(Rational::new(4, 1)));
    let mut tempos: Timeline<Instant, Tempo> = Timeline::new();
    tempos.append(Instant::new_parts(0, 0, 1), Tempo(Rational::new(120, 1)));
    assert_eq!(
        merge_beats_and_tempo(beats, tempos).unwrap_err(),
        TimelineError::NotZeroAligned
    );

    // Empty inputs cannot be aligned.
    let beats: Timeline<usize, Beat> = Timeline::new();
    let tempos: Timeline<Instant, Tempo> = Timeline::new();
    assert_eq!(
        merge_beats_and_tempo(beats, tempos).unwrap_err(),
        TimelineError::NotZeroAligned
    );
}

#[test]
fn rhythm_merge_rejects_duplicates() {
    let mut beats: Timeline<usize, Beat> = Timeline::new();
    beats.insert(0, Beat(Rational::new(4, 1)));
    beats.insert(0, Beat(Rational::new(5, 1)));
    let mut tempos: Timeline<Instant, Tempo> = Timeline::new();
    tempos.append(Instant::new_parts(0, 0, 1), Tempo(Rational::new(120, 1)));
    assert_eq!(
        merge_beats_and_tempo(beats, tempos).unwrap_err(),
        TimelineError::HasDuplicateTimes
    );
}

#[test]
fn rational_arithmetic_is_canonical() {
    assert_eq!(Rational::new(2, 4), Rational::new(1, 2));
    assert_eq!(Rational::new(90, 2), Rational::new(45, 1));
    let half = Rational::new(1, 2);
    let third = Rational::new(1, 3);
    assert_eq!(half.plus(&third), Rational::new(5, 6));
    assert_eq!(half.plus(&half), Rational::new(1, 1));
    assert_eq!(half.scale(6), Rational::new(3, 1));
    assert!(third.le(&half));
    assert!(!half.le(&third));
}

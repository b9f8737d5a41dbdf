use flechs::preintegral::Preintegral;
use flechs::rational::Rational;
use flechs::time::{Instant, InstantError};
use flechs::timeline::Timeline;
use flechs::util::{lower_bound, upper_bound};
use flechs::value::Beat;

#[test]
fn instant_validation_works() {
    assert!(
        Instant::new(0, Rational::new(0, 1)).is_ok(),
        "Valid Instant pass"
    );
    assert!(
        Instant::new(2, Rational::new(1, 4)).is_ok(),
        "Valid Instant pass"
    );
    assert!(
        Instant::new(2, Rational::new(15, 16)).is_ok(),
        "Valid Instant pass"
    );

    assert_eq!(
        Instant::new(0, Rational::new(4, 4)),
        Err(InstantError::OverSubmeasure(Rational::new(4, 4))),
        "Invalid instant passes"
    );
    assert_eq!(
        Instant::new(0, Rational::new(8, 4)),
        Err(InstantError::OverSubmeasure(Rational::new(8, 4))),
        "Invalid instant passes"
    );
}

#[test]
fn instant_macro_works() {
    assert_eq!(Instant::new_parts(0, 0, 1).measure(), 0, "Instant macro works");
    assert_eq!(Instant::new_parts(1, 3, 4).measure(), 1, "Instant macro works");
}

#[test]
fn basic_timeline_works() {
    let mut tl: Timeline<Instant, i32> = Timeline::new();
    tl.append(Instant::new_parts(0, 0, 1), 7);
    tl.append(Instant::new_parts(7, 0, 1), 4);

    assert_eq!(
        tl.latest_item(Instant::new_parts(0, 0, 1)),
        Some(&7),
        "timeline fetches correct item"
    );
    assert_eq!(
        tl.latest_item(Instant::new_parts(2, 3, 4)),
        Some(&7),
        "timeline fetches correct item"
    );
    assert_eq!(
        tl.latest_item(Instant::new_parts(7, 0, 1)),
        Some(&4),
        "timeline fetches correct item"
    );
    assert_eq!(
        tl.latest_item(Instant::new_parts(100, 0, 1)),
        Some(&4),
        "timeline fetches correct item"
    );
}

#[test]
fn advanced_timeline_works() {
    // Out-of-order inserts land in sorted positions, equal keys keep
    // insertion order, and slice lookups report the full run.
    let mut tl: Timeline<usize, &str> = Timeline::new();
    tl.insert(4, "mid");
    tl.insert(0, "start");
    tl.insert(9, "end");
    tl.insert(4, "mid-second");

    assert_eq!(tl.times(), vec![0, 4, 4, 9]);
    assert_eq!(tl.latest_item(3), Some(&"start"));
    assert_eq!(tl.latest_item(4), Some(&"mid-second"));
    assert_eq!(tl.latest_slice(5).to_vec(), vec!["mid", "mid-second"]);
    assert_eq!(tl.latest_slice(9).to_vec(), vec!["end"]);
    assert!(tl.latest_slice(usize::MAX).ends_with(&["end"]));
    assert_eq!(tl.latest_item(usize::MAX), Some(&"end"));
    assert!(tl.has_duplicate_times());
}

#[test]
fn bound_functions_work() {
    let source: Vec<usize> = vec![1, 2, 4, 8, 16, 32, 64, 128];
    assert_eq!(lower_bound(&source, &1), 0);
    assert_eq!(lower_bound(&source, &2), 1);
    assert_eq!(lower_bound(&source, &3), 2);
    assert_eq!(lower_bound(&source, &4), 2);
    assert_eq!(lower_bound(&source, &20), 5);
    assert_eq!(lower_bound(&source, &256), 8);

    let source: Vec<usize> = vec![1, 1, 1, 1, 16, 16, 16, 16, 256];
    assert_eq!(lower_bound(&source, &0), 0);
    assert_eq!(lower_bound(&source, &1), 0);
    assert_eq!(lower_bound(&source, &2), 4);
    assert_eq!(lower_bound(&source, &15), 4);
    assert_eq!(lower_bound(&source, &16), 4);
    assert_eq!(lower_bound(&source, &17), 8);
    assert_eq!(lower_bound(&source, &512), 9);

    let source: Vec<usize> = vec![1, 2, 4, 8, 16, 32, 64, 128];
    assert_eq!(upper_bound(&source, &1), 1);
    assert_eq!(upper_bound(&source, &2), 2);
    assert_eq!(upper_bound(&source, &3), 2);
    assert_eq!(upper_bound(&source, &4), 3);
    assert_eq!(upper_bound(&source, &20), 5);
    assert_eq!(upper_bound(&source, &256), 8);

    let source: Vec<usize> = vec![1, 1, 1, 1, 16, 16, 16, 16, 256];
    assert_eq!(upper_bound(&source, &0), 0);
    assert_eq!(upper_bound(&source, &1), 4);
    assert_eq!(upper_bound(&source, &2), 4);
    assert_eq!(upper_bound(&source, &15), 4);
    assert_eq!(upper_bound(&source, &16), 8);
    assert_eq!(upper_bound(&source, &17), 8);
    assert_eq!(upper_bound(&source, &512), 9);
}

#[test]
fn check_beats_timeline() {
    let mut tl: Timeline<usize, Beat> = Timeline::new();
    tl.append(0, Beat(Rational::new(4, 1)));
    tl.append(4, Beat(Rational::new(7, 1)));
    tl.append(6, Beat(Rational::new(4, 1)));
    tl.append(8, Beat(Rational::new(7, 2)));
    let pitl = Preintegral::new(tl);

    assert_eq!(pitl.fetch(0), Rational::new(0, 1), "beat calculation works");
    assert_eq!(pitl.fetch(2), Rational::new(8, 1), "beat calculation works");
    assert_eq!(pitl.fetch(4), Rational::new(16, 1), "beat calculation works");
    assert_eq!(pitl.fetch(5), Rational::new(23, 1), "beat calculation works");
    assert_eq!(pitl.fetch(6), Rational::new(30, 1), "beat calculation works");
    assert_eq!(pitl.fetch(8), Rational::new(38, 1), "beat calculation works");
    assert_eq!(pitl.fetch(9), Rational::new(83, 2), "beat calculation works");
    assert_eq!(pitl.fetch(10), Rational::new(90, 2), "beat calculation works");
}

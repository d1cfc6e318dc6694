use knirvbase::clock::ComparisonResult;
use knirvbase::clock::VectorClock;

fn clock_of(entries: &[(&str, u64)]) -> VectorClock {
    let v: Vec<(String, u64)> = entries.iter().map(|(k, c)| (k.to_string(), *c)).collect();
    VectorClock::from_entries(&v)
}

#[test]
fn compare_is_reflexive() {
    let v = clock_of(&[("a-1", 2), ("b-1", 1)]);
    assert_eq!(v.compare(&v), ComparisonResult::Equal);
    let empty = VectorClock::new();
    assert_eq!(empty.compare(&empty), ComparisonResult::Equal);
}

#[test]
fn compare_yields_exactly_one_outcome() {
    let pairs = vec![
        (clock_of(&[("a", 1)]), clock_of(&[("a", 1)])),
        (clock_of(&[("a", 1)]), clock_of(&[("a", 2)])),
        (clock_of(&[("a", 2)]), clock_of(&[("a", 1)])),
        (clock_of(&[("a", 1)]), clock_of(&[("b", 1)])),
        (clock_of(&[("a", 1), ("b", 2)]), clock_of(&[("a", 2), ("b", 1)])),
    ];
    for (v, w) in pairs {
        let outcomes = [
            v.compare(&w) == ComparisonResult::Equal,
            v.compare(&w) == ComparisonResult::Before,
            v.compare(&w) == ComparisonResult::After,
            v.compare(&w) == ComparisonResult::Concurrent,
        ];
        let hits = outcomes.iter().filter(|b| **b).count();
        assert_eq!(hits, 1);
    }
}

#[test]
fn compare_is_dual() {
    let v = clock_of(&[("a", 3), ("b", 1)]);
    let w = clock_of(&[("a", 1), ("b", 1)]);
    assert_eq!(v.compare(&w), ComparisonResult::After);
    assert_eq!(w.compare(&v), ComparisonResult::Before);
    let x = clock_of(&[("a", 1), ("c", 5)]);
    assert_eq!(v.compare(&x), ComparisonResult::Concurrent);
    assert_eq!(x.compare(&v), ComparisonResult::Concurrent);
}

#[test]
fn merge_is_associative_commutative_idempotent() {
    let v = clock_of(&[("a", 1), ("b", 4)]);
    let w = clock_of(&[("b", 2), ("c", 3)]);
    let x = clock_of(&[("a", 5)]);

    let left = v.clone().merge(&w).merge(&x);
    let right = v.clone().merge(&w.clone().merge(&x));
    assert_eq!(left.compare(&right), ComparisonResult::Equal);

    let vw = v.clone().merge(&w);
    let wv = w.clone().merge(&v);
    assert_eq!(vw.compare(&wv), ComparisonResult::Equal);

    let vv = v.clone().merge(&v);
    assert_eq!(vv.compare(&v), ComparisonResult::Equal);

    assert!(v.happens_before(&vw));
    assert!(w.happens_before(&vw));
    assert_eq!(vw.get_counter(&"a".to_string()), 1);
    assert_eq!(vw.get_counter(&"b".to_string()), 4);
    assert_eq!(vw.get_counter(&"c".to_string()), 3);
}

#[test]
fn increment_advances_the_clock() {
    let v = clock_of(&[("a-1", 1)]);
    let w = v.clone().increment("a-1".to_string());
    assert_eq!(w.get_counter(&"a-1".to_string()), 2);
    assert!(v.happens_before(&w));
    assert!(!w.happens_before(&v));
    let fresh = VectorClock::new().increment("p".to_string());
    assert_eq!(fresh.get_counter(&"p".to_string()), 1);
    assert_eq!(fresh.get_counter(&"q".to_string()), 0);
}

#[test]
fn merge_with_own_increment_is_the_increment() {
    let v = clock_of(&[("a", 2)]);
    let inc = v.clone().increment("a".to_string());
    let merged = v.clone().merge(&inc);
    assert_eq!(merged.compare(&inc), ComparisonResult::Equal);
}

use arboliva::grid::CandidateCell;

#[test]
fn with_count_sets_correct_low_bits() {
    let c = CandidateCell::with_count(3);

    assert!(c.contains(1));
    assert!(c.contains(2));
    assert!(c.contains(3));

    assert!(!c.contains(4));
    assert_eq!(c.len(), 3);
}

#[test]
fn fixed_sets_single_value() {
    let c = CandidateCell::with_value(5);

    for i in 1..=16 {
        if i == 5 {
            assert!(c.contains(i));
        } else {
            assert!(!c.contains(i));
        }
    }

    assert_eq!(c.len(), 1);
}

#[test]
fn remove_candidate_reduces_size() {
    let mut c = CandidateCell::with_count(5);

    assert_eq!(c.len(), 5);

    c.remove(3);

    assert!(!c.contains(3));
    assert_eq!(c.len(), 4);
}

#[test]
fn remove_nonexistent_candidate_does_nothing() {
    let mut c = CandidateCell::with_count(3);

    c.remove(10);

    assert_eq!(c.len(), 3);
}

#[test]
fn multiple_removes_work_correctly() {
    let mut c = CandidateCell::with_count(6);

    c.remove(1);
    c.remove(2);
    c.remove(6);

    assert_eq!(c.len(), 3);
    assert!(!c.contains(1));
    assert!(!c.contains(2));
    assert!(!c.contains(6));
    assert!(c.contains(3));
}

#[test]
fn fixed_value_of_single_and_many() {
    assert_eq!(CandidateCell::with_value(7).fixed_value(), Some(7));
    assert_eq!(CandidateCell::with_count(2).fixed_value(), None);
    let mut c = CandidateCell::with_count(2);
    c.remove(1);
    assert_eq!(c.fixed_value(), Some(2));
    c.remove(2);
    assert_eq!(c.len(), 0);
    assert_eq!(c.fixed_value(), None);
}

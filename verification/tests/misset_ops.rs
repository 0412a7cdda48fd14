use sudoku::{HoodMisSet, HoodMisSetOps, MisSet, MisSetOps};

#[test]
fn is_missing() {
    let mut row_mis = HoodMisSet::new();
    row_mis[2].found(1);
    assert!(row_mis[2].is_missing(2));
    assert!(!row_mis[2].is_missing(1));
}

#[test]
fn intersection() {
    let mut a = MisSet::new();
    let mut b = MisSet::new();
    let mut c = MisSet::new();
    assert_eq!(a.inters(b).inters(c), [true, true, true, true, true, true, true, true, true], "true means missing");
    c.found(1);
    assert_eq!(a.inters(b).inters(c), [false, true, true, true, true, true, true, true, true], "true means missing");
    a.found(4);
    assert_eq!(a.inters(b).inters(c), [false, true, true, false, true, true, true, true, true], "true means missing");

    a.found(1);
    a.found(4);
    a.found(5);
    a.found(6);
    a.found(7);
    b.found(1);
    b.found(3);
    b.found(5);
    b.found(6);
    b.found(7);
    c.found(1);
    c.found(3);
    c.found(4);
    c.found(6);
    c.found(7);

    assert_eq!(a.inters(b).inters(c), [false, true, false, false, false, false, false, true, true], "true means missing");
    c.found(2);
    assert_eq!(a.inters(b).inters(c), [false, false, false, false, false, false, false, true, true], "true means missing");
    c.found(8);
    assert_eq!(a.inters(b).inters(c), [false, false, false, false, false, false, false, false, true], "true means missing");
    c.found(9);
    assert_eq!(a.inters(b).inters(c), [false, false, false, false, false, false, false, false, false], "true means missing");
}

#[test]
fn bool9_to_set() {
    let mut a = MisSet::new();
    a.found(1);
    a.found(4);
    a.found(5);
    a.found(6);
    a.found(7);
    assert_eq!(a.to_string(), "{2,3,8,9}", "presense in the set means not found");
}

#[test]
fn len() {
    let mut a = MisSet::new();
    assert_eq!(9, a.len());
    a.found(1);
    a.found(4);
    a.found(5);
    a.found(6);
    a.found(7);
    assert_eq!(4, a.len());
}

#[test]
fn remove() {
    let mut a = MisSet::new();
    let mut b = MisSet::new();
    a.found(1);
    a.found(4);
    a.found(5);
    a.found(6);
    a.found(7);
    b.found(1);
    b.found(3);
    b.found(5);
    b.found(6);
    b.found(7);
    a.remove(b);
    assert_eq!(a, [false, false, true, false, false, false, false, false, false], "true means missing");
}

#[test]
fn new_sets_are_full_and_empty() {
    assert_eq!(MisSet::new(), [true; 9]);
    assert_eq!(MisSet::new_all_found(), [false; 9]);
    assert_eq!(MisSet::new_all_found().len(), 0);
    assert_eq!(MisSet::new_all_found().to_string(), "{}");
    assert_eq!(MisSet::new().to_string(), "{1,2,3,4,5,6,7,8,9}");
    let h = HoodMisSet::new();
    for s in h.iter() {
        assert_eq!(*s, [true; 9]);
    }
}

#[test]
fn found_keeps_other_digits() {
    let mut a = MisSet::new();
    a.found(9);
    a.found(9);
    assert_eq!(a, [true, true, true, true, true, true, true, true, false]);
    assert_eq!(a.len(), 8);
    a.found(1);
    assert_eq!(a.len(), 7);
    assert_eq!(a.to_string(), "{2,3,4,5,6,7,8}");
}

#[test]
fn inters_commutes_and_groups() {
    let a = [true, false, true, true, false, true, false, true, true];
    let b = [false, false, true, true, true, true, false, false, true];
    let c = [true, true, true, false, true, true, true, false, true];
    assert_eq!(a.inters(b), b.inters(a));
    assert_eq!(a.inters(b).inters(c), a.inters(b.inters(c)));
    assert_eq!(a.inters3(b, c), a.inters(b).inters(c));
    assert_eq!(a.inters3(b, c), [false, false, true, false, false, true, false, false, true]);
}

#[test]
fn remove_is_difference() {
    let mut a = [true, false, true, true, false, true, false, true, true];
    let b = [false, false, true, true, true, true, false, false, true];
    a.remove(b);
    assert_eq!(a, [true, false, false, false, false, false, false, true, false]);
    assert_eq!(a.to_string(), "{1,8}");
    assert_eq!(a.len(), 2);
}

#[test]
fn single_digit_text() {
    let mut a = MisSet::new_all_found();
    a[4] = true;
    assert_eq!(a.to_string(), "{5}");
    assert_eq!(a.len(), 1);
    assert!(a.is_missing(5));
    assert!(!a.is_missing(4));
}

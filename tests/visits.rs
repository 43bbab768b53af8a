use bintree::VisitHistory;

#[test]
fn first_visit_has_no_change() {
    let mut h = VisitHistory::new();
    assert_eq!(h.visit_count, 0);
    let (count, change) = h.record_visit((120, 80));
    assert_eq!(count, 1);
    assert_eq!(change, None);
    assert_eq!(h.last_blood_pressure, Some((120, 80)));
}

#[test]
fn second_visit_reports_the_change() {
    let mut h = VisitHistory::new();
    h.record_visit((120, 80));
    let (count, change) = h.record_visit((115, 76));
    assert_eq!(count, 2);
    assert_eq!(change, Some((-5, -4)));
    assert_eq!(h.visit_count, 2);
}

#[test]
fn change_is_measured_from_the_latest_reading() {
    let mut h = VisitHistory::new();
    h.record_visit((120, 80));
    h.record_visit((130, 85));
    let (count, change) = h.record_visit((125, 90));
    assert_eq!(count, 3);
    assert_eq!(change, Some((-5, 5)));
}

#[test]
fn reading_above_i32_range_wraps() {
    let mut h = VisitHistory::new();
    h.record_visit((0, 0));
    let (_, change) = h.record_visit((u32::MAX, 3));
    assert_eq!(change, Some((-1, 3)));
}

use course_match::sorting::sort_desc;

#[test]
fn sort_descends_stably() {
    let v: Vec<(u32, u32)> = vec![(1, 20), (2, 30), (3, 20), (4, 25)];
    let r = sort_desc(v);
    // Ties (students 1 and 3 at priority 20) keep their original order.
    assert_eq!(r, vec![(2, 30), (4, 25), (1, 20), (3, 20)]);
}

#[test]
fn resorting_a_sorted_list_changes_nothing() {
    let v: Vec<(u32, u32)> = vec![(1, 30), (2, 20), (3, 20), (4, 10)];
    let r = sort_desc(v.clone());
    assert_eq!(r, v);
    let r2 = sort_desc(r.clone());
    assert_eq!(r2, r);
}

#[test]
fn sort_keeps_duplicates() {
    let v: Vec<(u32, u32)> = vec![(7, 5), (7, 5)];
    let r = sort_desc(v.clone());
    assert_eq!(r, v);
}

#[test]
fn sort_of_empty_is_empty() {
    let v: Vec<(u32, u32)> = vec![];
    assert_eq!(sort_desc(v), vec![]);
}

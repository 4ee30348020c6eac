use course_match::catalog::courses;
use course_match::engine::{empty_matchings, pend_insert, proposing, Preferences};
use course_match::generator::{generate_student, generate_students};

#[test]
fn generated_preferences_are_well_formed() {
    for _ in 0..50 {
        let p = generate_student();
        assert!(1 <= p.len() && p.len() <= 4);
        for (course, prio) in &p {
            assert!(["A", "B", "C", "D"].contains(&course.as_str()));
            assert!((10000..=59999).contains(prio));
        }
        for i in 0..p.len() {
            for j in (i + 1)..p.len() {
                assert_ne!(p[i].0, p[j].0, "course repeated in one list");
                assert!(p[i].1 <= p[j].1, "list is not ascending by priority");
            }
        }
    }
}

#[test]
fn generate_students_fills_identifiers_one_to_seven() {
    let mut preferences: Preferences = Vec::new();
    generate_students(&mut preferences);
    // Seats total 8, so students 1..8 (exclusive) are generated.
    let ids: Vec<u32> = preferences.iter().map(|e| e.0).collect();
    assert_eq!(ids, vec![1, 2, 3, 4, 5, 6, 7]);
}

#[test]
fn generate_students_keeps_existing_entries() {
    let mut preferences: Preferences = Vec::new();
    pend_insert(&mut preferences, 0, vec![("A".to_string(), 30000)]);
    pend_insert(&mut preferences, 99, vec![("B".to_string(), 40000)]);
    generate_students(&mut preferences);
    assert_eq!(preferences[0].0, 0);
    assert_eq!(preferences[0].1, vec![("A".to_string(), 30000)]);
    let last = preferences.last().unwrap();
    assert_eq!(last.0, 99);
    assert_eq!(last.1, vec![("B".to_string(), 40000)]);
}

#[test]
fn whole_run_partitions_the_population() {
    let catalog = courses();
    let mut matchings = empty_matchings(&catalog);
    let mut preferences: Preferences = Vec::new();
    pend_insert(&mut preferences, 0, generate_student());
    generate_students(&mut preferences);
    let all_ids: Vec<u32> = preferences.iter().map(|e| e.0).collect();
    let unmatched = proposing(&catalog, &mut preferences, &mut matchings).unwrap();
    assert!(preferences.is_empty());
    // Every student lands in exactly one slot's list or among the unmatched.
    for id in &all_ids {
        let assigned = matchings
            .iter()
            .map(|(_, l)| l.iter().filter(|e| e.0 == *id).count())
            .sum::<usize>();
        let dropped = unmatched.iter().filter(|u| **u == *id).count();
        assert_eq!(assigned + dropped, 1, "student {id} is not in exactly one place");
    }
    // Capacity and descending order hold per slot.
    for (k, (name, list)) in matchings.iter().enumerate() {
        assert_eq!(name, &catalog[k].0);
        assert!(list.len() <= catalog[k].1 as usize);
        for w in list.windows(2) {
            assert!(w[0].1 >= w[1].1);
        }
    }
}

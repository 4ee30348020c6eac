use course_match::catalog::{catalog_capacity, courses, Catalog};
use course_match::engine::{empty_matchings, proposing, MatchError, Matchings, Preferences};

fn one_slot_catalog(name: &str, cap: u8) -> Catalog {
    vec![(name.to_string(), cap)]
}

fn pool(entries: Vec<(u32, Vec<(&str, u32)>)>) -> Preferences {
    entries
        .into_iter()
        .map(|(id, prefs)| {
            (
                id,
                prefs.into_iter().map(|(c, p)| (c.to_string(), p)).collect::<Vec<_>>(),
            )
        })
        .collect()
}

#[test]
fn catalog_has_four_courses() {
    let c = courses();
    let expect = vec![("A", 2u8), ("B", 2), ("C", 3), ("D", 1)];
    assert_eq!(c.len(), expect.len());
    for (i, (name, cap)) in expect.iter().enumerate() {
        assert_eq!(c[i].0, *name);
        assert_eq!(c[i].1, *cap);
    }
}

#[test]
fn capacity_lookup() {
    let c = courses();
    assert_eq!(catalog_capacity(&c, "A"), Some(2));
    assert_eq!(catalog_capacity(&c, "C"), Some(3));
    assert_eq!(catalog_capacity(&c, "D"), Some(1));
    assert_eq!(catalog_capacity(&c, "Z"), None);
    assert_eq!(catalog_capacity(&c, ""), None);
}

#[test]
fn empty_matchings_mirrors_catalog() {
    let c = courses();
    let m = empty_matchings(&c);
    assert_eq!(m.len(), 4);
    for (k, (name, _)) in c.iter().enumerate() {
        assert_eq!(&m[k].0, name);
        assert!(m[k].1.is_empty());
    }
}

#[test]
fn single_slot_higher_score_wins() {
    let catalog = one_slot_catalog("X", 1);
    let mut preferences = pool(vec![(1, vec![("X", 10)]), (2, vec![("X", 20)])]);
    let mut matchings: Matchings = empty_matchings(&catalog);
    let unmatched = proposing(&catalog, &mut preferences, &mut matchings).unwrap();
    assert_eq!(matchings, vec![("X".to_string(), vec![(2u32, 20u32)])]);
    assert_eq!(unmatched, vec![1]);
    assert!(preferences.is_empty());
}

#[test]
fn displacement_chain() {
    let catalog = one_slot_catalog("X", 1);
    let mut preferences = pool(vec![
        (1, vec![("X", 10)]),
        (2, vec![("X", 20)]),
        (3, vec![("X", 5)]),
    ]);
    let mut matchings: Matchings = empty_matchings(&catalog);
    let unmatched = proposing(&catalog, &mut preferences, &mut matchings).unwrap();
    assert_eq!(matchings, vec![("X".to_string(), vec![(2u32, 20u32)])]);
    let mut sorted_unmatched = unmatched.clone();
    sorted_unmatched.sort();
    assert_eq!(sorted_unmatched, vec![1, 3]);
}

#[test]
fn empty_preference_list_is_immediately_unmatched() {
    let catalog = one_slot_catalog("X", 1);
    let mut preferences = pool(vec![(5, vec![])]);
    let mut matchings: Matchings = empty_matchings(&catalog);
    let unmatched = proposing(&catalog, &mut preferences, &mut matchings).unwrap();
    assert_eq!(unmatched, vec![5]);
    assert!(matchings[0].1.is_empty());
}

#[test]
fn ties_favor_the_incumbent() {
    let catalog = one_slot_catalog("X", 1);
    let mut preferences = pool(vec![(1, vec![("X", 20)]), (2, vec![("X", 20)])]);
    let mut matchings: Matchings = empty_matchings(&catalog);
    let unmatched = proposing(&catalog, &mut preferences, &mut matchings).unwrap();
    assert_eq!(matchings, vec![("X".to_string(), vec![(1u32, 20u32)])]);
    assert_eq!(unmatched, vec![2]);
}

#[test]
fn capacity_is_respected_and_lists_sorted_descending() {
    let catalog = one_slot_catalog("X", 2);
    let mut preferences = pool(vec![
        (1, vec![("X", 10)]),
        (2, vec![("X", 20)]),
        (3, vec![("X", 30)]),
    ]);
    let mut matchings: Matchings = empty_matchings(&catalog);
    let unmatched = proposing(&catalog, &mut preferences, &mut matchings).unwrap();
    assert_eq!(matchings, vec![("X".to_string(), vec![(3u32, 30u32), (2u32, 20u32)])]);
    assert_eq!(unmatched, vec![1]);
}

#[test]
fn unknown_slot_is_fatal() {
    let catalog = one_slot_catalog("X", 1);
    let mut preferences = pool(vec![(1, vec![("Z", 10)])]);
    let mut matchings: Matchings = empty_matchings(&catalog);
    let r = proposing(&catalog, &mut preferences, &mut matchings);
    assert_eq!(r, Err(MatchError::UnknownSlot("Z".to_string())));
}

#[test]
fn unknown_slot_behind_a_better_choice_is_never_popped() {
    // The bad entry sits at the front (lowest priority); the good entry is
    // tried first and accepted, so the run still succeeds.
    let catalog = one_slot_catalog("X", 1);
    let mut preferences = pool(vec![(1, vec![("Z", 5), ("X", 10)])]);
    let mut matchings: Matchings = empty_matchings(&catalog);
    let unmatched = proposing(&catalog, &mut preferences, &mut matchings).unwrap();
    assert_eq!(matchings, vec![("X".to_string(), vec![(1u32, 10u32)])]);
    assert!(unmatched.is_empty());
}

#[test]
fn second_choice_after_rejection() {
    let catalog: Catalog = vec![("X".to_string(), 1), ("Y".to_string(), 1)];
    // Student 2 prefers X (higher priority last) and falls back to Y.
    let mut preferences = pool(vec![
        (1, vec![("X", 50)]),
        (2, vec![("Y", 10), ("X", 20)]),
    ]);
    let mut matchings: Matchings = empty_matchings(&catalog);
    let unmatched = proposing(&catalog, &mut preferences, &mut matchings).unwrap();
    assert_eq!(
        matchings,
        vec![
            ("X".to_string(), vec![(1u32, 50u32)]),
            ("Y".to_string(), vec![(2u32, 10u32)]),
        ]
    );
    assert!(unmatched.is_empty());
}

#[test]
fn displaced_student_retries_full_original_list() {
    // Student 1 takes Y first (their top choice), is displaced by student 3,
    // and, restarting from the full original list, lands on X.
    let catalog: Catalog = vec![("X".to_string(), 1), ("Y".to_string(), 1)];
    let mut preferences = pool(vec![
        (1, vec![("X", 10), ("Y", 20)]),
        (3, vec![("Y", 30)]),
    ]);
    let mut matchings: Matchings = empty_matchings(&catalog);
    let unmatched = proposing(&catalog, &mut preferences, &mut matchings).unwrap();
    assert_eq!(
        matchings,
        vec![
            ("X".to_string(), vec![(1u32, 10u32)]),
            ("Y".to_string(), vec![(3u32, 30u32)]),
        ]
    );
    assert!(unmatched.is_empty());
}

#[test]
fn identical_input_gives_identical_output() {
    let build = || {
        let catalog: Catalog = vec![("X".to_string(), 2), ("Y".to_string(), 1)];
        let preferences = pool(vec![
            (1, vec![("Y", 11), ("X", 17)]),
            (2, vec![("X", 17)]),
            (3, vec![("X", 40), ("Y", 41)]),
            (4, vec![("Y", 41)]),
        ]);
        (catalog, preferences)
    };
    let (cat1, mut p1) = build();
    let mut m1 = empty_matchings(&cat1);
    let u1 = proposing(&cat1, &mut p1, &mut m1).unwrap();
    let (cat2, mut p2) = build();
    let mut m2 = empty_matchings(&cat2);
    let u2 = proposing(&cat2, &mut p2, &mut m2).unwrap();
    assert_eq!(m1, m2);
    assert_eq!(u1, u2);
}

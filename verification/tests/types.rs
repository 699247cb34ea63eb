use reword::types::{Goal, Grade, Mode};

#[test]
fn names_read_back() {
    for g in [Goal::Forward, Goal::Reverse] {
        assert_eq!(Goal::parse(g.as_str()), Some(g));
    }
    for m in [Mode::Recall, Mode::Typed] {
        assert_eq!(Mode::parse(m.as_str()), Some(m));
    }
    for g in [Grade::Again, Grade::Hard, Grade::Good, Grade::Easy] {
        assert_eq!(Grade::parse(g.as_str()), Some(g));
    }
    assert_eq!(Goal::parse("sideways"), None);
    assert_eq!(Goal::Reverse.index(), 1);
    assert_eq!(Grade::Easy.rating(), 4);
    assert!(!Grade::Again.is_success());
    assert!(Grade::Hard.is_success());
}

#[test]
fn grades_map_one_to_one_onto_ratings() {
    let all = [Grade::Again, Grade::Hard, Grade::Good, Grade::Easy];
    let ratings: Vec<u32> = all.iter().map(|g| g.rating()).collect();
    assert_eq!(ratings, vec![1, 2, 3, 4]);
    assert!(!Grade::Again.is_success());
    assert!(Grade::Hard.is_success() && Grade::Good.is_success() && Grade::Easy.is_success());
}

use reword::planner::{NewPolicy, Plan};
use reword::review::{
    after_session, choose_mode, choose_policy, mode_key, nothing_due, session_label, session_minutes, ModeKey,
};
use reword::term::{Key, Style};
use reword::types::Mode;

fn plan(total_goals: usize, learned: usize, next_due: Option<(i32, usize)>) -> Plan {
    Plan {
        due: vec![],
        new: vec![],
        new_limit: 0,
        throttled: false,
        next_due,
        deferred_siblings: 0,
        total_goals,
        learned,
    }
}

#[test]
fn review_decisions_and_messages() {
    let off = Style { on: false };
    assert_eq!(choose_mode(true, false, Some(Mode::Recall)), Some(Mode::Typed));
    assert_eq!(choose_mode(false, false, None), None);
    assert_eq!(mode_key(Key::Enter), ModeKey::Pick(Mode::Recall));
    assert_eq!(mode_key(Key::Char('T')), ModeKey::Pick(Mode::Typed));
    assert_eq!(mode_key(Key::Esc), ModeKey::Cancel);
    assert!(matches!(choose_policy(true, Some(3), false), NewPolicy::Explicit(0)));
    assert!(matches!(choose_policy(false, Some(3), true), NewPolicy::Explicit(3)));
    assert!(matches!(choose_policy(false, None, false), NewPolicy::Daily));
    assert!(matches!(choose_policy(false, None, true), NewPolicy::Explicit(usize::MAX)));
    assert!(matches!(choose_policy(true, None, true), NewPolicy::Explicit(0)));
    let names = vec!["a".to_string(), "b".to_string()];
    assert_eq!(session_label(false, &names, None), "all decks (2)");
    assert_eq!(session_label(true, &names, Some("food")), "a, b · food");
    assert_eq!(
        nothing_due(off, "a", "a", &plan(0, 0, None), 100),
        "a has no cards. Add some: reword add a or edit decks/a.md."
    );
    assert_eq!(
        nothing_due(off, "a", "a", &plan(2, 1, Some((103, 2))), 100),
        "Nothing due in a. 2 cards come due in 3 days. --endless keeps going anyway."
    );
    assert_eq!(after_session(off, 3, 0, None, 0, ""), "3 cards remain. Next: reword review");
    assert_eq!(
        after_session(off, 0, 1, None, 0, " a"),
        "All caught up. 1 new card is waiting: reword review a --new 5"
    );
    assert_eq!(
        after_session(off, 0, 0, Some((1, 1)), 0, ""),
        "All caught up. 1 card comes due tomorrow. reword review --endless keeps going."
    );
    assert_eq!(after_session(off, 0, 0, None, 0, ""), "All caught up.");
}

#[test]
fn session_budget_follows_the_flags() {
    assert_eq!(session_minutes(false, None, None, 10), Some(10));
    assert_eq!(session_minutes(false, None, Some(5), 10), Some(5));
    assert_eq!(session_minutes(false, None, Some(0), 10), Some(1));
    assert_eq!(session_minutes(false, Some(20), None, 10), None);
    assert_eq!(session_minutes(false, Some(20), Some(3), 10), Some(3));
    assert_eq!(session_minutes(true, None, None, 10), None);
}

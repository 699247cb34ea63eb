use reword::planner::Item;
use reword::session::{
    continue_key, continue_prompt, key_hint, progress, recall_grade_key, recall_prompt_key,
    summary_line, typed_key, typed_line, Queue, Reaction, Session, Stage, Summary, Typed, time_check, typed_auto_grade, TimeCheck, cap_reached, typed_grade};
use reword::term::Key;
use reword::types::{Goal, Grade};

fn item(n: usize) -> Item {
    Item {
        deck: 0,
        card: n,
        goal: Goal::Forward,
        retrievability: 0,
    }
}

fn queue(due: usize, new: usize, limit: usize) -> Queue {
    Queue {
        due: (0..due).map(item).collect(),
        new: (100..100 + new).map(item).collect(),
        relearn: Vec::new(),
        new_limit: limit,
        new_taken: 0,
        shown: 0,
        since_new: 0,
    }
}

fn drain(q: &mut Queue) -> Vec<usize> {
    let mut out = Vec::new();
    while let Some((i, o)) = q.pick() {
        q.account(o);
        out.push(i.card);
    }
    out
}

#[test]
fn new_cards_interleave_one_per_five_reviews() {
    let mut q = queue(12, 3, 2);
    assert_eq!(q.remaining(), 14);
    let order = drain(&mut q);
    assert_eq!(order, vec![0, 1, 2, 3, 4, 100, 5, 6, 7, 8, 9, 101, 10, 11]);
}

#[test]
fn new_cards_fill_when_nothing_is_due() {
    let mut q = queue(0, 3, 3);
    assert_eq!(drain(&mut q), vec![100, 101, 102]);
}

#[test]
fn relearn_returns_after_gap_or_at_the_end() {
    let mut q = queue(8, 0, 0);
    let (first, o) = q.pick().unwrap();
    q.account(o);
    q.requeue(first.clone());
    assert_eq!(q.remaining(), 8);
    let order = drain(&mut q);
    assert_eq!(order, vec![1, 2, 3, 4, 5, 0, 6, 7]);

    let mut q = queue(2, 0, 0);
    let (first, o) = q.pick().unwrap();
    q.account(o);
    q.requeue(first);
    assert_eq!(drain(&mut q), vec![1, 0]);
}

#[test]
fn undo_restores_counters_and_withdraws_relearn() {
    let mut q = queue(3, 1, 1);
    let before = q.counters();
    let (a, o) = q.pick().unwrap();
    q.account(o);
    q.requeue(a.clone());
    q.withdraw(&a);
    q.push_front(a, o);
    q.restore(before);
    assert_eq!(q.remaining(), 4);
    assert_eq!(drain(&mut q), vec![0, 1, 2, 100]);
}

#[test]
fn session_undo_takes_back_a_grade() {
    let mut s = Session::start((0..3).map(item).collect(), vec![item(100)], 1);
    assert_eq!(s.pool, 4);
    let (a, o) = s.queue.pick().unwrap();
    let c = s.show(o);
    s.graded(a, o, c, Grade::Again, Stage::Revealed);
    assert_eq!(s.summary.reviews, 1);
    assert_eq!(s.summary.correct, 0);
    assert_eq!(s.queue.relearn.len(), 1);
    let (b, ob) = s.queue.pick().unwrap();
    let _ = s.show(ob);
    let d = s.undo(b, ob);
    assert_eq!(d.item.card, 0);
    assert_eq!(s.summary.reviews, 0);
    assert_eq!(s.queue.relearn.len(), 0);
    assert_eq!(s.queue.shown, 0);
    assert_eq!(s.done_of_pool(), 1, "the undone card waits to be shown again");
    let (c2, oc) = s.queue.pick().unwrap();
    assert_eq!(c2.card, 1);
    let cc = s.show(oc);
    s.skipped(c2, oc, cc);
    assert_eq!(s.summary.skipped, 1);
    let (q, oq) = s.queue.pick().unwrap();
    let cq = s.show(oq);
    s.quit(q, oq, cq);
    assert!(s.summary.quit);
}

#[test]
fn keys_mean_what_the_hints_say() {
    assert_eq!(recall_prompt_key(Key::Space, false), Reaction::Reveal);
    assert_eq!(recall_prompt_key(Key::Left, false), Reaction::Ignore);
    assert_eq!(recall_prompt_key(Key::Left, true), Reaction::Undo);
    assert_eq!(recall_grade_key(Key::Char('3'), false), Reaction::Grade(Grade::Good));
    assert_eq!(recall_grade_key(Key::Char('h'), false), Reaction::Grade(Grade::Hard));
    assert_eq!(recall_grade_key(Key::Char('?'), false), Reaction::Help);
    assert_eq!(recall_grade_key(Key::CtrlD, false), Reaction::Quit);
    assert_eq!(typed_key(Typed::Wrong, Key::Char('o'), false), Reaction::Override);
    assert_eq!(typed_key(Typed::Right, Key::Enter, false), Reaction::Grade(Grade::Good));
    assert_eq!(typed_key(Typed::Revealed, Key::Enter, false), Reaction::Grade(Grade::Again));
    assert_eq!(typed_line("  ", "to eat"), Typed::Revealed);
    assert_eq!(typed_line("TO eat", "to eat"), Typed::Right);
    assert_eq!(typed_line("eat", "to eat"), Typed::Wrong);
    assert_eq!(
        key_hint("[space] reveal  [s] skip  [←] undo  [q] quit", false),
        "[space] reveal  [s] skip  [q] quit"
    );
    assert!(continue_key(Key::Char('Y')));
    assert!(!continue_key(Key::Enter));
}

fn summary(reviews: usize, correct: usize, skipped: usize, new_seen: usize) -> Summary {
    Summary { reviews, correct, skipped, new_seen, secs: 0, remaining: 0, quit: false }
}

#[test]
fn summary_lines() {
    assert_eq!(summary_line(&summary(0, 0, 0, 0), 10), "Nothing reviewed.");
    assert_eq!(summary_line(&summary(0, 0, 2, 0), 10), "2 cards skipped, nothing graded.");
    assert_eq!(summary_line(&summary(8, 1, 0, 0), 45), "8 reviews in 45 s · 1 correct (13%)");
    assert_eq!(
        summary_line(&summary(3, 2, 1, 1), 89),
        "3 reviews in 1 minute · 2 correct (67%) · 1 new · 1 skipped"
    );
    assert_eq!(summary_line(&summary(1, 1, 0, 0), 90), "1 review in 2 minutes · 1 correct (100%)");
    assert_eq!(progress(3, 10, 61), "3/10 · 2 min left");
    assert_eq!(progress(3, 10, 0), "3/10 · time's up");
    assert_eq!(continue_prompt(1, 10), "1 card remain. Continue for 10 minutes more? [y/N] ");
}

#[test]
fn time_is_checked_against_the_budget() {
    assert_eq!(time_check(10, None, 5), TimeCheck::Go);
    assert_eq!(time_check(599, Some(600), 5), TimeCheck::Go);
    assert_eq!(time_check(600, Some(600), 5), TimeCheck::Ask);
    assert_eq!(time_check(700, Some(600), 0), TimeCheck::Stop);
}

#[test]
fn a_right_fresh_answer_is_graded_at_once() {
    assert_eq!(typed_auto_grade(Typed::Right, true), Some(Grade::Good));
    assert_eq!(typed_auto_grade(Typed::Right, false), None);
    assert_eq!(typed_auto_grade(Typed::Wrong, true), None);
    assert_eq!(typed_auto_grade(Typed::Revealed, true), None);
}

#[test]
fn a_card_cap_stops_after_that_many() {
    assert!(!cap_reached(2, Some(3)));
    assert!(cap_reached(3, Some(3)));
    assert!(!cap_reached(1000, None));
}

#[test]
fn a_typo_override_records_one_good_with_the_typed_answer() {
    let g = typed_grade(Typed::Wrong, Reaction::Override, "teh".to_string()).unwrap();
    assert_eq!(g.grade, Grade::Good);
    assert!(g.overridden);
    assert_eq!(g.answer.as_deref(), Some("teh"));
    assert!(matches!(g.stage, Stage::Checked { ref typed, correct: false } if typed == "teh"));

    let g = typed_grade(Typed::Right, Reaction::Grade(Grade::Easy), "the".to_string()).unwrap();
    assert_eq!(g.grade, Grade::Easy);
    assert!(!g.overridden);
    assert!(matches!(g.stage, Stage::Checked { correct: true, .. }));

    let g = typed_grade(Typed::Revealed, Reaction::Grade(Grade::Again), String::new()).unwrap();
    assert_eq!(g.answer, None);
    assert!(matches!(g.stage, Stage::Revealed));

    assert!(typed_grade(Typed::Wrong, Reaction::Skip, "x".to_string()).is_none());
    assert!(typed_grade(Typed::Right, Reaction::Ignore, "x".to_string()).is_none());
}

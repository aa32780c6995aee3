use trivia::assemble::Question;
use trivia::quiz::{display_options, resolve_key, round_with_order, shuffled_options, KeyOutcome, Quiz, Tally};

fn question(text: &str, answer: &str, wrong: &[&str]) -> Question {
    Question {
        text: text.to_string(),
        answer: answer.to_string(),
        wrong_answers: wrong.iter().map(|w| w.to_string()).collect(),
    }
}

#[test]
fn shuffled_options_hold_each_index_once() {
    for m in 0..8usize {
        let mut order = shuffled_options(m);
        assert_eq!(order.len(), m + 1);
        order.sort();
        assert_eq!(order, (0..=m).collect::<Vec<usize>>());
    }
}

#[test]
fn correct_position_shows_the_answer() {
    let q = question("Q", "right", &["w0", "w1"]);
    let round = round_with_order(&q, vec![1, 2, 0]);
    assert_eq!(round.correct_position, 1);
    let shown = display_options(&q, &round.order);
    assert_eq!(shown, vec!["w1".to_string(), "right".to_string(), "w0".to_string()]);
}

#[test]
fn lone_answer_stands_first() {
    let q = question("Q", "only", &[]);
    let round = round_with_order(&q, vec![0]);
    assert_eq!(round.correct_position, 0);
    assert_eq!(display_options(&q, &round.order), vec!["only".to_string()]);
}

#[test]
fn keys_resolve_to_positions() {
    assert_eq!(resolve_key('1', 3), Some(0));
    assert_eq!(resolve_key('3', 3), Some(2));
    assert_eq!(resolve_key('4', 3), None);
    assert_eq!(resolve_key('0', 3), None);
    assert_eq!(resolve_key('a', 3), None);
    assert_eq!(resolve_key('9', 9), Some(8));
}

#[test]
fn tally_counts_each_answer_once() {
    let mut t = Tally::new();
    assert!(t.record(2, 2));
    assert!(!t.record(0, 1));
    assert!(!t.record(3, 1));
    assert_eq!(t.correct, 1);
    assert_eq!(t.incorrect, 2);
}

#[test]
fn key_on_correct_position_scores() {
    let mut quiz = Quiz::new(vec![question("Q", "A", &["B", "C"])]);
    // display position 2 holds the correct slot (index 2)
    let shown = quiz.start_round_with(vec![0, 2, 1]).unwrap();
    assert_eq!(shown[1], "A");
    assert!(matches!(quiz.press_key('2'), KeyOutcome::Correct));
    assert_eq!(quiz.tally.correct, 1);
    assert_eq!(quiz.tally.incorrect, 0);
    assert!(quiz.is_done());
}

#[test]
fn wrong_key_scores_incorrect() {
    let mut quiz = Quiz::new(vec![question("Q", "A", &["B", "C"])]);
    quiz.start_round_with(vec![0, 2, 1]).unwrap();
    assert!(matches!(quiz.press_key('1'), KeyOutcome::Wrong));
    assert_eq!(quiz.tally.correct, 0);
    assert_eq!(quiz.tally.incorrect, 1);
}

#[test]
fn other_keys_keep_waiting() {
    let mut quiz = Quiz::new(vec![question("Q", "A", &["B"])]);
    assert!(matches!(quiz.press_key('1'), KeyOutcome::Ignored));
    quiz.start_round_with(vec![1, 0]).unwrap();
    assert!(matches!(quiz.press_key('3'), KeyOutcome::Ignored));
    assert!(matches!(quiz.press_key('x'), KeyOutcome::Ignored));
    assert!(quiz.round.is_some());
    assert_eq!(quiz.next, 0);
    assert!(quiz.start_round().is_none());
    assert!(matches!(quiz.press_key('1'), KeyOutcome::Correct));
    assert!(quiz.start_round().is_none());
}

#[test]
fn five_questions_run_five_rounds_in_order() {
    let qs: Vec<Question> =
        (0..5).map(|i| question(&format!("Q{}", i), "yes", &["no", "maybe"])).collect();
    let mut quiz = Quiz::new(qs);
    let mut asked = Vec::new();
    while !quiz.is_done() {
        asked.push(quiz.questions[quiz.next].text.clone());
        let shown = quiz.start_round().unwrap();
        assert_eq!(shown.len(), 3);
        let pos = quiz.round.as_ref().unwrap().correct_position;
        assert_eq!(shown[pos], "yes");
        let key = if asked.len() % 2 == 0 { '1' } else { '2' };
        assert!(!matches!(quiz.press_key(key), KeyOutcome::Ignored));
    }
    assert_eq!(asked, vec!["Q0", "Q1", "Q2", "Q3", "Q4"]);
    assert_eq!(quiz.tally.correct + quiz.tally.incorrect, 5);
}

use trivia::assemble::{assemble_blocks, assemble_questions, get_questions_from_file, questions_from_events, Question};
use trivia::markup::{parse_fragments, Fragment, MarkupEvent};

fn frag(tag: &str, text: &str) -> Fragment {
    Fragment { tag: tag.to_string(), text: text.to_string(), opening: false, in_question: true }
}

fn outside(tag: &str, text: &str) -> Fragment {
    Fragment { tag: tag.to_string(), text: text.to_string(), opening: false, in_question: false }
}

fn question_open() -> Fragment {
    Fragment { tag: "question".to_string(), text: String::new(), opening: true, in_question: false }
}

fn question_close() -> Fragment {
    outside("question", "")
}

fn texts_of(events: &Vec<MarkupEvent>) -> Vec<String> {
    let ing = questions_from_events(events);
    ing.questions.iter().map(|q| q.text.clone()).collect()
}

fn open(t: &str) -> MarkupEvent {
    MarkupEvent::Open(t.to_string())
}

fn close(t: &str) -> MarkupEvent {
    MarkupEvent::Close(t.to_string())
}

fn text(t: &str) -> MarkupEvent {
    MarkupEvent::Text(t.to_string())
}

#[test]
fn fragments_make_one_question() {
    let fs = vec![
        frag("prompt", "Q1"),
        frag("correctAnswer", "A"),
        frag("incorrectAnswer", "B"),
        question_close(),
    ];
    let (qs, warnings) = assemble_questions(&fs);
    assert_eq!(qs.len(), 1);
    assert_eq!(qs[0].text, "Q1");
    assert_eq!(qs[0].answer, "A");
    assert_eq!(qs[0].wrong_answers, vec!["B".to_string()]);
    assert!(warnings.is_empty());
}

#[test]
fn unmatched_close_warns_and_emits_nothing() {
    let (fs, warnings) = parse_fragments(&vec![close("question")]);
    assert!(fs.is_empty());
    assert_eq!(warnings.len(), 1);
    assert_eq!(warnings[0].tag, "question");
    assert!(warnings[0].closing);
}

#[test]
fn mismatched_close_is_skipped() {
    let events = vec![open("prompt"), text("x"), close("answer"), close("prompt")];
    let (fs, warnings) = parse_fragments(&events);
    assert_eq!(fs.len(), 1);
    assert_eq!(fs[0].tag, "prompt");
    assert_eq!(fs[0].text, "x");
    assert_eq!(warnings.len(), 1);
    assert_eq!(warnings[0].tag, "answer");
}

#[test]
fn text_segments_are_appended() {
    let events = vec![open("prompt"), text("ab"), MarkupEvent::Other, text("cd"), close("prompt")];
    let (fs, _) = parse_fragments(&events);
    assert_eq!(fs.len(), 1);
    assert_eq!(fs[0].text, "abcd");
}

#[test]
fn nested_elements_emit_inner_first() {
    let events = vec![
        open("question"),
        open("prompt"),
        text("Q"),
        close("prompt"),
        close("question"),
    ];
    let (fs, warnings) = parse_fragments(&events);
    assert_eq!(fs.len(), 3);
    assert_eq!(fs[0].tag, "question");
    assert!(fs[0].opening);
    assert!(!fs[0].in_question);
    assert_eq!(fs[1].tag, "prompt");
    assert_eq!(fs[1].text, "Q");
    assert!(!fs[1].opening);
    assert!(fs[1].in_question);
    assert_eq!(fs[2].tag, "question");
    assert_eq!(fs[2].text, "Q");
    assert!(!fs[2].opening);
    assert!(!fs[2].in_question);
    assert!(warnings.is_empty());
}

#[test]
fn questions_come_out_in_source_order() {
    let mut fs = Vec::new();
    for (p, a, w) in [("Q1", "A1", vec!["W1", "W2"]), ("Q2", "A2", vec![]), ("Q3", "A3", vec!["W3"])] {
        fs.push(frag("prompt", p));
        fs.push(frag("correctAnswer", a));
        for x in w {
            fs.push(frag("incorrectAnswer", x));
        }
        fs.push(question_close());
    }
    let (qs, warnings) = assemble_questions(&fs);
    assert_eq!(qs.len(), 3);
    assert_eq!(qs[0].text, "Q1");
    assert_eq!(qs[0].wrong_answers, vec!["W1".to_string(), "W2".to_string()]);
    assert_eq!(qs[1].text, "Q2");
    assert!(qs[1].wrong_answers.is_empty());
    assert_eq!(qs[2].answer, "A3");
    assert!(warnings.is_empty());
}

#[test]
fn unknown_tag_is_reported_and_skipped() {
    let fs = vec![frag("prompt", "Q"), frag("hint", "h"), frag("correctAnswer", "A"), question_close()];
    let (qs, warnings) = assemble_questions(&fs);
    assert_eq!(qs.len(), 1);
    assert_eq!(qs[0].answer, "A");
    assert_eq!(warnings.len(), 1);
    assert_eq!(warnings[0].tag, "hint");
    assert!(!warnings[0].closing);
}

#[test]
fn question_without_prompt_is_dropped() {
    let fs = vec![frag("correctAnswer", "A"), question_close(), frag("prompt", "late")];
    let (qs, warnings) = assemble_questions(&fs);
    assert!(qs.is_empty());
    assert_eq!(warnings.len(), 1);
    assert_eq!(warnings[0].tag, "question");
    assert!(warnings[0].closing);
}

#[test]
fn empty_input_gives_nothing() {
    let (qs, warnings) = assemble_questions(&Vec::new());
    assert!(qs.is_empty());
    assert!(warnings.is_empty());
}

#[test]
fn new_question_is_empty() {
    let q = Question::new();
    assert!(q.text.is_empty());
    assert!(q.answer.is_empty());
    assert!(q.wrong_answers.is_empty());
}

#[test]
fn events_to_questions() {
    let events = vec![
        open("questions"),
        open("question"),
        open("prompt"),
        text("2+2?"),
        close("prompt"),
        open("correctAnswer"),
        text("4"),
        close("correctAnswer"),
        open("incorrectAnswer"),
        text("5"),
        close("incorrectAnswer"),
        close("question"),
        close("questions"),
    ];
    let ing = questions_from_events(&events);
    assert_eq!(ing.questions.len(), 1);
    assert_eq!(ing.questions[0].text, "2+2?");
    assert_eq!(ing.questions[0].answer, "4");
    assert_eq!(ing.questions[0].wrong_answers, vec!["5".to_string()]);
    assert_eq!(ing.warnings.len(), 1);
    assert_eq!(ing.warnings[0].tag, "questions");
}

#[test]
fn document_is_read() {
    let doc = "<?xml version=\"1.0\"?>\n<questions>\n  <question>\n    <prompt>Capital of France?</prompt>\n    <correctAnswer>Paris</correctAnswer>\n    <incorrectAnswer>Lyon</incorrectAnswer>\n    <incorrectAnswer>Nice</incorrectAnswer>\n  </question>\n  <question>\n    <prompt>1+1?</prompt>\n    <correctAnswer>2</correctAnswer>\n  </question>\n</questions>\n";
    let ing = match get_questions_from_file(doc.as_bytes()) {
        Ok(ing) => ing,
        Err(e) => panic!("{}", e),
    };
    assert_eq!(ing.questions.len(), 2);
    assert_eq!(ing.questions[0].text, "Capital of France?");
    assert_eq!(ing.questions[0].answer, "Paris");
    assert_eq!(ing.questions[0].wrong_answers, vec!["Lyon".to_string(), "Nice".to_string()]);
    assert_eq!(ing.questions[1].text, "1+1?");
    assert!(ing.questions[1].wrong_answers.is_empty());
}

#[test]
fn malformed_document_is_an_error() {
    let doc = "<questions><question><prompt>Q</question></questions>";
    assert!(get_questions_from_file(doc.as_bytes()).is_err());
}

#[test]
fn blocks_start_at_each_prompt() {
    let fs = vec![
        frag("prompt", "Q1"),
        frag("correctAnswer", "A1"),
        frag("incorrectAnswers", "W1"),
        frag("incorrectAnswer", "W2"),
        frag("prompt", "Q2"),
        frag("correctAnswer", "A2"),
    ];
    let (qs, warnings) = assemble_blocks(&fs);
    assert_eq!(qs.len(), 2);
    assert_eq!(qs[0].text, "Q1");
    assert_eq!(qs[0].answer, "A1");
    assert_eq!(qs[0].wrong_answers, vec!["W1".to_string(), "W2".to_string()]);
    assert_eq!(qs[1].text, "Q2");
    assert_eq!(qs[1].answer, "A2");
    assert!(qs[1].wrong_answers.is_empty());
    assert!(warnings.is_empty());
}

#[test]
fn blocks_skip_stray_and_unknown_tags() {
    let fs = vec![
        frag("correctAnswer", "early"),
        frag("prompt", "Q"),
        frag("category", "x"),
        frag("correctAnswer", "A"),
    ];
    let (qs, warnings) = assemble_blocks(&fs);
    assert_eq!(qs.len(), 1);
    assert_eq!(qs[0].answer, "A");
    assert_eq!(warnings.len(), 2);
    assert_eq!(warnings[0].tag, "correctAnswer");
    assert_eq!(warnings[1].tag, "category");
}

#[test]
fn block_with_empty_prompt_is_dropped() {
    let fs = vec![frag("prompt", ""), frag("correctAnswer", "A"), frag("prompt", "Q")];
    let (qs, warnings) = assemble_blocks(&fs);
    assert_eq!(qs.len(), 1);
    assert_eq!(qs[0].text, "Q");
    assert!(qs[0].answer.is_empty());
    assert_eq!(warnings.len(), 1);
    assert_eq!(warnings[0].tag, "prompt");
}

#[test]
fn unknown_element_inside_field_keeps_its_text() {
    let with = vec![
        open("question"),
        open("prompt"),
        text("a"),
        open("u"),
        text("b"),
        close("u"),
        text("c"),
        close("prompt"),
        close("question"),
    ];
    let without = vec![
        open("question"),
        open("prompt"),
        text("a"),
        text("b"),
        text("c"),
        close("prompt"),
        close("question"),
    ];
    assert_eq!(texts_of(&with), vec!["abc".to_string()]);
    assert_eq!(texts_of(&without), vec!["abc".to_string()]);
    let ing = questions_from_events(&with);
    assert_eq!(ing.warnings.len(), 1);
    assert_eq!(ing.warnings[0].tag, "u");
    assert!(questions_from_events(&without).warnings.is_empty());
}

#[test]
fn nested_text_reaches_enclosing_element() {
    let events = vec![open("prompt"), text("a"), open("b"), text("x"), close("b"), text("c"), close("prompt")];
    let (fs, _) = parse_fragments(&events);
    assert_eq!(fs.len(), 2);
    assert_eq!(fs[0].tag, "b");
    assert_eq!(fs[0].text, "x");
    assert_eq!(fs[1].tag, "prompt");
    assert_eq!(fs[1].text, "axc");
}

#[test]
fn field_outside_question_is_warned_and_skipped() {
    let events = vec![
        open("prompt"),
        text("x"),
        close("prompt"),
        open("question"),
        close("question"),
    ];
    let ing = questions_from_events(&events);
    assert!(ing.questions.is_empty());
    assert_eq!(ing.warnings.len(), 2);
    assert_eq!(ing.warnings[0].tag, "prompt");
    assert!(!ing.warnings[0].closing);
    assert_eq!(ing.warnings[1].tag, "question");
    assert!(ing.warnings[1].closing);
}

#[test]
fn stray_prompt_before_question_is_dropped() {
    let events = vec![
        open("quiz"),
        open("prompt"),
        text("x"),
        close("prompt"),
        open("question"),
        open("prompt"),
        text("Q"),
        close("prompt"),
        close("question"),
        close("quiz"),
    ];
    let ing = questions_from_events(&events);
    assert_eq!(ing.questions.len(), 1);
    assert_eq!(ing.questions[0].text, "Q");
    assert!(ing.questions[0].answer.is_empty());
    assert!(ing.questions[0].wrong_answers.is_empty());
    let tags: Vec<(String, bool)> = ing.warnings.iter().map(|w| (w.tag.clone(), w.closing)).collect();
    assert_eq!(tags, vec![("prompt".to_string(), false), ("quiz".to_string(), false)]);
}

#[test]
fn question_open_starts_a_fresh_question() {
    let fs = vec![
        question_open(),
        frag("correctAnswer", "stale"),
        question_open(),
        frag("prompt", "Q"),
        question_close(),
    ];
    let (qs, warnings) = assemble_questions(&fs);
    assert_eq!(qs.len(), 1);
    assert_eq!(qs[0].text, "Q");
    assert!(qs[0].answer.is_empty());
    assert!(warnings.is_empty());
}

#[test]
fn second_close_of_nested_question_warns() {
    let events = vec![
        open("question"),
        open("question"),
        open("prompt"),
        text("Q"),
        close("prompt"),
        close("question"),
        close("question"),
    ];
    let ing = questions_from_events(&events);
    assert_eq!(ing.questions.len(), 1);
    assert_eq!(ing.questions[0].text, "Q");
    assert_eq!(ing.warnings.len(), 1);
    assert_eq!(ing.warnings[0].tag, "question");
    assert!(ing.warnings[0].closing);
}

#[test]
fn field_fragment_outside_question_is_skipped() {
    let fs = vec![outside("prompt", "x"), question_open(), frag("prompt", "Q"), question_close()];
    let (qs, warnings) = assemble_questions(&fs);
    assert_eq!(qs.len(), 1);
    assert_eq!(qs[0].text, "Q");
    assert_eq!(warnings.len(), 1);
    assert_eq!(warnings[0].tag, "prompt");
    assert!(!warnings[0].closing);
}

#[test]
fn warnings_come_in_document_order() {
    let events = vec![
        open("question"),
        close("foo"),
        open("hint"),
        close("hint"),
        close("bar"),
        open("prompt"),
        text("Q"),
        close("prompt"),
        close("question"),
    ];
    let ing = questions_from_events(&events);
    assert_eq!(ing.questions.len(), 1);
    let tags: Vec<(String, bool)> = ing.warnings.iter().map(|w| (w.tag.clone(), w.closing)).collect();
    assert_eq!(
        tags,
        vec![("foo".to_string(), true), ("hint".to_string(), false), ("bar".to_string(), true)]
    );
}

//! Building question records out of fragments.

use crate::markup::{
    has_question, lemma_parse_split, names_view, parse_event, parse_from, parse_start, parse_state,
    parse_step, ParseModel, fragments_view, markup_events_of, parse_model, read_markup,
    warnings_view,
    Fragment, FragmentView, MarkupEvent, Warning,
};
use vstd::prelude::*;

verus! {

/// One quiz question: its prompt, the correct option and the wrong ones.
pub struct Question {
    pub text: String,
    pub answer: String,
    pub wrong_answers: Vec<String>,
}

pub struct QuestionView {
    pub text: Seq<char>,
    pub answer: Seq<char>,
    pub wrong_answers: Seq<Seq<char>>,
}

pub open spec fn texts_view(v: Seq<String>) -> Seq<Seq<char>> {
    v.map_values(|s: String| s@)
}

impl View for Question {
    type V = QuestionView;

    open spec fn view(&self) -> QuestionView {
        QuestionView {
            text: self.text@,
            answer: self.answer@,
            wrong_answers: texts_view(self.wrong_answers@),
        }
    }
}

pub open spec fn questions_view(v: Seq<Question>) -> Seq<QuestionView> {
    v.map_values(|q: Question| q@)
}

pub open spec fn empty_question() -> QuestionView {
    QuestionView { text: seq![], answer: seq![], wrong_answers: seq![] }
}

impl Question {
    /// A question with no prompt, no answer and no wrong answers.
    pub fn new() -> (r: Question)
        ensures
            r@ == empty_question(),
    {
        let r = Question { text: String::new(), answer: String::new(), wrong_answers: Vec::new() };
        assert(texts_view(r.wrong_answers@) =~= seq![]);
        r
    }
}

/// The assembler's state: the question being filled, the finished ones, and
/// the warnings so far.
pub struct AssemblyModel {
    pub current: QuestionView,
    pub questions: Seq<QuestionView>,
    pub warnings: Seq<(Seq<char>, bool)>,
}

pub open spec fn assembly_start() -> AssemblyModel {
    AssemblyModel { current: empty_question(), questions: seq![], warnings: seq![] }
}

pub open spec fn is_field_tag(tag: Seq<char>) -> bool {
    tag == "prompt"@ || tag == "correctAnswer"@ || tag == "incorrectAnswer"@
}

/// One fragment applied to the assembler's state. The opening of a
/// `question` starts a fresh question; field fragments inside a question
/// fill it; the close of a `question` ends it, and keeps it only where it
/// has a prompt. A field outside any question, and any other tag, is
/// reported and skipped.
pub open spec fn assemble_step(st: AssemblyModel, f: FragmentView) -> AssemblyModel {
    if f.opening {
        if f.tag == "question"@ {
            AssemblyModel { current: empty_question(), ..st }
        } else {
            AssemblyModel { warnings: st.warnings.push((f.tag, false)), ..st }
        }
    } else if is_field_tag(f.tag) && !f.in_question {
        AssemblyModel { warnings: st.warnings.push((f.tag, false)), ..st }
    } else if f.tag == "prompt"@ {
        AssemblyModel { current: QuestionView { text: f.text, ..st.current }, ..st }
    } else if f.tag == "correctAnswer"@ {
        AssemblyModel { current: QuestionView { answer: f.text, ..st.current }, ..st }
    } else if f.tag == "incorrectAnswer"@ {
        AssemblyModel {
            current: QuestionView {
                wrong_answers: st.current.wrong_answers.push(f.text),
                ..st.current
            },
            ..st
        }
    } else if f.tag == "question"@ {
        if st.current.text.len() > 0 {
            AssemblyModel {
                current: empty_question(),
                questions: st.questions.push(st.current),
                ..st
            }
        } else {
            AssemblyModel {
                current: empty_question(),
                warnings: st.warnings.push(("question"@, true)),
                ..st
            }
        }
    } else {
        AssemblyModel { warnings: st.warnings.push((f.tag, false)), ..st }
    }
}

/// The assembler's state after a sequence of fragments, from a given state.
pub open spec fn assemble_from(st: AssemblyModel, fs: Seq<FragmentView>) -> AssemblyModel
    decreases fs.len(),
{
    if fs.len() == 0 {
        st
    } else {
        assemble_step(assemble_from(st, fs.drop_last()), fs.last())
    }
}

pub open spec fn assemble_model(fs: Seq<FragmentView>) -> AssemblyModel {
    assemble_from(assembly_start(), fs)
}

enum FieldTag {
    Question,
    Prompt,
    CorrectAnswer,
    IncorrectAnswer,
    Unknown,
}

fn classify(tag: &String) -> (r: FieldTag)
    ensures
        (r is Prompt) == (tag@ == "prompt"@),
        !(r is Prompt) ==> ((r is CorrectAnswer) == (tag@ == "correctAnswer"@)),
        !(r is Prompt || r is CorrectAnswer) ==> ((r is IncorrectAnswer) == (tag@
            == "incorrectAnswer"@)),
        !(r is Prompt || r is CorrectAnswer || r is IncorrectAnswer) ==> ((r is Question) == (
        tag@ == "question"@)),
        r is Unknown ==> tag@ != "question"@ && tag@ != "prompt"@ && tag@ != "correctAnswer"@
            && tag@ != "incorrectAnswer"@,
{
    if *tag == "prompt".to_owned() {
        FieldTag::Prompt
    } else if *tag == "correctAnswer".to_owned() {
        FieldTag::CorrectAnswer
    } else if *tag == "incorrectAnswer".to_owned() {
        FieldTag::IncorrectAnswer
    } else if *tag == "question".to_owned() {
        FieldTag::Question
    } else {
        FieldTag::Unknown
    }
}

pub open spec fn assembly_state(current: Question, questions: Seq<Question>, warnings: Seq<Warning>) -> AssemblyModel {
    AssemblyModel {
        current: current@,
        questions: questions_view(questions),
        warnings: warnings_view(warnings),
    }
}

/// Applies one fragment to the assembler's state.
pub(crate) fn assemble_fragment(
    current: &mut Question,
    questions: &mut Vec<Question>,
    warnings: &mut Vec<Warning>,
    f: &Fragment,
)
    ensures
        assembly_state(*final(current), final(questions)@, final(warnings)@) == assemble_step(
            assembly_state(*old(current), old(questions)@, old(warnings)@),
            f@,
        ),
{
    let ghost m = assembly_state(*current, questions@, warnings@);
    let kind = classify(&f.tag);
    proof {
        lemma_tags_differ();
    }
    let field = match kind {
        FieldTag::Prompt => true,
        FieldTag::CorrectAnswer => true,
        FieldTag::IncorrectAnswer => true,
        _ => false,
    };
    if f.opening {
        if let FieldTag::Question = kind {
            *current = Question::new();
        } else {
            warnings.push(Warning { tag: f.tag.clone(), closing: false });
            assert(warnings_view(warnings@) =~= assemble_step(m, f@).warnings);
        }
    } else if field && !f.in_question {
        warnings.push(Warning { tag: f.tag.clone(), closing: false });
        assert(warnings_view(warnings@) =~= assemble_step(m, f@).warnings);
    } else {
        match kind {
            FieldTag::Prompt => {
                current.text = f.text.clone();
            },
            FieldTag::CorrectAnswer => {
                current.answer = f.text.clone();
            },
            FieldTag::IncorrectAnswer => {
                current.wrong_answers.push(f.text.clone());
                assert(texts_view(current.wrong_answers@) =~= assemble_step(m, f@).current.wrong_answers);
            },
            FieldTag::Question => {
                if !current.text.as_str().is_empty() {
                    let mut done = Question::new();
                    core::mem::swap(current, &mut done);
                    questions.push(done);
                    assert(questions_view(questions@) =~= assemble_step(m, f@).questions);
                } else {
                    *current = Question::new();
                    warnings.push(Warning { tag: "question".to_owned(), closing: true });
                    assert(warnings_view(warnings@) =~= assemble_step(m, f@).warnings);
                }
            },
            FieldTag::Unknown => {
                warnings.push(Warning { tag: f.tag.clone(), closing: false });
                assert(warnings_view(warnings@) =~= assemble_step(m, f@).warnings);
            },
        }
    }
}

/// Builds questions out of fragments, in source order. A question is kept
/// once its `question` fragment arrives and only if it has a prompt; fields
/// after the last such fragment are dropped.
pub fn assemble_questions(fragments: &Vec<Fragment>) -> (r: (Vec<Question>, Vec<Warning>))
    ensures
        questions_view(r.0@) == assemble_model(fragments_view(fragments@)).questions,
        warnings_view(r.1@) == assemble_model(fragments_view(fragments@)).warnings,
{
    let ghost fv = fragments_view(fragments@);
    let mut current = Question::new();
    let mut questions: Vec<Question> = Vec::new();
    let mut warnings: Vec<Warning> = Vec::new();
    proof {
        assert(questions_view(questions@) =~= seq![]);
        assert(warnings_view(warnings@) =~= seq![]);
        assert(fv.take(0) =~= seq![]);
    }
    let mut i: usize = 0;
    while i < fragments.len()
        invariant
            i <= fragments@.len(),
            fv == fragments_view(fragments@),
            assembly_state(current, questions@, warnings@) == assemble_model(fv.take(i as int)),
        decreases fragments@.len() - i,
    {
        proof {
            assert(fv.take(i + 1).drop_last() =~= fv.take(i as int));
        }
        assemble_fragment(&mut current, &mut questions, &mut warnings, &fragments[i]);
        i = i + 1;
    }
    proof {
        assert(fv.take(i as int) =~= fv);
    }
    (questions, warnings)
}

/// The block assembler's state: the block being filled, if a prompt has
/// been seen, the finished questions, and the warnings so far.
pub struct BlockModel {
    pub current: Option<QuestionView>,
    pub questions: Seq<QuestionView>,
    pub warnings: Seq<(Seq<char>, bool)>,
}

pub open spec fn block_start() -> BlockModel {
    BlockModel { current: None, questions: seq![], warnings: seq![] }
}

pub open spec fn is_wrong_answer_tag(tag: Seq<char>) -> bool {
    tag == "incorrectAnswer"@ || tag == "incorrectAnswers"@
}

/// Ends the block in progress: it becomes a question where its prompt is
/// not empty, and a warning otherwise.
pub open spec fn close_block(st: BlockModel) -> BlockModel {
    match st.current {
        None => st,
        Some(q) => if q.text.len() > 0 {
            BlockModel { current: None, questions: st.questions.push(q), ..st }
        } else {
            BlockModel { current: None, warnings: st.warnings.push(("prompt"@, false)), ..st }
        },
    }
}

/// One fragment applied to the block assembler's state. A prompt ends the
/// block in progress and starts a new one; answers fill the block in
/// progress; anything else, or an answer before the first prompt, is
/// reported and skipped.
pub open spec fn block_step(st: BlockModel, f: FragmentView) -> BlockModel {
    if f.tag == "prompt"@ {
        BlockModel {
            current: Some(QuestionView { text: f.text, ..empty_question() }),
            ..close_block(st)
        }
    } else if st.current is Some && f.tag == "correctAnswer"@ {
        BlockModel { current: Some(QuestionView { answer: f.text, ..st.current.unwrap() }), ..st }
    } else if st.current is Some && is_wrong_answer_tag(f.tag) {
        BlockModel {
            current: Some(
                QuestionView {
                    wrong_answers: st.current.unwrap().wrong_answers.push(f.text),
                    ..st.current.unwrap()
                },
            ),
            ..st
        }
    } else {
        BlockModel { warnings: st.warnings.push((f.tag, false)), ..st }
    }
}

pub open spec fn blocks_from(fs: Seq<FragmentView>) -> BlockModel
    decreases fs.len(),
{
    if fs.len() == 0 {
        block_start()
    } else {
        block_step(blocks_from(fs.drop_last()), fs.last())
    }
}

/// The outcome of block assembly: the last block ends with the fragments.
pub open spec fn blocks_model(fs: Seq<FragmentView>) -> BlockModel {
    close_block(blocks_from(fs))
}

/// Builds questions out of fragments that carry no question boundaries:
/// each prompt starts a new question, which takes the answers that follow
/// it up to the next prompt or the end. Such sources have no `question`
/// elements, so a `question` fragment is an unknown tag here.
pub fn assemble_blocks(fragments: &Vec<Fragment>) -> (r: (Vec<Question>, Vec<Warning>))
    ensures
        questions_view(r.0@) == blocks_model(fragments_view(fragments@)).questions,
        warnings_view(r.1@) == blocks_model(fragments_view(fragments@)).warnings,
{
    let ghost fv = fragments_view(fragments@);
    let mut current: Option<Question> = None;
    let mut questions: Vec<Question> = Vec::new();
    let mut warnings: Vec<Warning> = Vec::new();
    let mut i: usize = 0;
    while i < fragments.len()
        invariant
            i <= fragments@.len(),
            fv == fragments_view(fragments@),
            ({
                let m = blocks_from(fv.take(i as int));
                &&& current is Some == m.current is Some
                &&& current is Some ==> current.unwrap()@ == m.current.unwrap()
                &&& questions_view(questions@) == m.questions
                &&& warnings_view(warnings@) == m.warnings
            }),
        decreases fragments@.len() - i,
    {
        proof {
            assert(fv.take(i + 1).drop_last() =~= fv.take(i as int));
        }
        let f = &fragments[i];
        let kind = classify(&f.tag);
        if let FieldTag::Prompt = kind {
            finish_block(&mut current, &mut questions, &mut warnings);
            let mut q = Question::new();
            q.text = f.text.clone();
            current = Some(q);
        } else {
            let known = match kind {
                FieldTag::CorrectAnswer => true,
                FieldTag::IncorrectAnswer => true,
                _ => f.tag == "incorrectAnswers".to_owned(),
            };
            proof {
                lemma_tags_differ();
            }
            if known && current.is_some() {
                let mut q = current.take().unwrap();
                if let FieldTag::CorrectAnswer = kind {
                    q.answer = f.text.clone();
                } else {
                    q.wrong_answers.push(f.text.clone());
                    assert(texts_view(q.wrong_answers@) =~= blocks_from(
                        fv.take(i + 1),
                    ).current.unwrap().wrong_answers);
                }
                current = Some(q);
            } else {
                warnings.push(Warning { tag: f.tag.clone(), closing: false });
                assert(warnings_view(warnings@) =~= blocks_from(fv.take(i + 1)).warnings);
            }
        }
        i = i + 1;
    }
    proof {
        assert(fv.take(i as int) =~= fv);
    }
    finish_block(&mut current, &mut questions, &mut warnings);
    (questions, warnings)
}

fn finish_block(
    current: &mut Option<Question>,
    questions: &mut Vec<Question>,
    warnings: &mut Vec<Warning>,
)
    ensures
        ({
            let st = BlockModel {
                current: match *old(current) {
                    Some(q) => Some(q@),
                    None => None,
                },
                questions: questions_view(old(questions)@),
                warnings: warnings_view(old(warnings)@),
            };
            &&& *final(current) is None
            &&& questions_view(final(questions)@) == close_block(st).questions
            &&& warnings_view(final(warnings)@) == close_block(st).warnings
        }),
{
    match current.take() {
        None => {},
        Some(q) => {
            if !q.text.as_str().is_empty() {
                questions.push(q);
                assert(questions_view(questions@) =~= questions_view(old(questions)@).push(q@));
            } else {
                warnings.push(Warning { tag: "prompt".to_owned(), closing: false });
                assert(warnings_view(warnings@) =~= warnings_view(old(warnings)@).push(
                    ("prompt"@, false),
                ));
            }
        },
    }
}

/// The questions read from a document, and the warnings met on the way.
pub struct Ingested {
    pub questions: Vec<Question>,
    pub warnings: Vec<Warning>,
}

/// The parser's state with nothing emitted yet.
pub open spec fn parse_cleared(p: ParseModel) -> ParseModel {
    ParseModel { fragments: seq![], warnings: seq![], ..p }
}

/// The assembler's state with no warning yet.
pub open spec fn assembly_cleared(a: AssemblyModel) -> AssemblyModel {
    AssemblyModel { warnings: seq![], ..a }
}

/// The warnings met while reading `es`, in document order: for each event,
/// the parser's warning about it, then the assembler's about the fragment
/// that it completed.
pub open spec fn ingest_warnings(es: Seq<MarkupEvent>) -> Seq<(Seq<char>, bool)>
    decreases es.len(),
{
    if es.len() == 0 {
        seq![]
    } else {
        let p = parse_model(es.drop_last());
        let step = parse_step(parse_cleared(p), es.last());
        let a = assemble_model(p.fragments);
        ingest_warnings(es.drop_last()) + step.warnings + assemble_from(
            assembly_cleared(a),
            step.fragments,
        ).warnings
    }
}

proof fn lemma_parse_step_parts(p: ParseModel, e: MarkupEvent)
    ensures
        ({
            let step = parse_step(parse_cleared(p), e);
            &&& step.fragments.len() <= 1
            &&& parse_step(p, e) == (ParseModel {
                fragments: p.fragments + step.fragments,
                warnings: p.warnings + step.warnings,
                ..step
            })
        }),
{
    let step = parse_step(parse_cleared(p), e);
    let full = parse_step(p, e);
    assert(full.fragments =~= p.fragments + step.fragments);
    assert(full.warnings =~= p.warnings + step.warnings);
}

proof fn lemma_assembly_warnings_apart(a: AssemblyModel, fs: Seq<FragmentView>)
    ensures
        assemble_from(a, fs) == (AssemblyModel {
            warnings: a.warnings + assemble_from(assembly_cleared(a), fs).warnings,
            ..assemble_from(assembly_cleared(a), fs)
        }),
    decreases fs.len(),
{
    if fs.len() == 0 {
        assert(a.warnings + seq![] =~= a.warnings);
    } else {
        lemma_assembly_warnings_apart(a, fs.drop_last());
        let x = assemble_from(a, fs.drop_last());
        let y = assemble_from(assembly_cleared(a), fs.drop_last());
        let f = fs.last();
        assert(assemble_step(x, f).warnings =~= a.warnings + assemble_step(y, f).warnings);
    }
}

/// Reading events one at a time meets as many warnings as parsing all of
/// them and then assembling all the fragments.
pub proof fn lemma_ingest_warning_count(es: Seq<MarkupEvent>)
    ensures
        ingest_warnings(es).len() == parse_model(es).warnings.len() + assemble_model(
            parse_model(es).fragments,
        ).warnings.len(),
    decreases es.len(),
{
    if es.len() > 0 {
        lemma_ingest_warning_count(es.drop_last());
        let p = parse_model(es.drop_last());
        let step = parse_step(parse_cleared(p), es.last());
        lemma_parse_step_parts(p, es.last());
        lemma_assemble_split(assembly_start(), p.fragments, step.fragments);
        lemma_assembly_warnings_apart(assemble_model(p.fragments), step.fragments);
    }
}

/// Parses markup events into fragments and assembles them into questions,
/// one event at a time. The warnings come in document order.
pub fn questions_from_events(events: &Vec<MarkupEvent>) -> (r: Ingested)
    ensures
        questions_view(r.questions@) == assemble_model(parse_model(events@).fragments).questions,
        warnings_view(r.warnings@) == ingest_warnings(events@),
{
    let mut open: Vec<String> = Vec::new();
    let mut texts: Vec<String> = Vec::new();
    let mut current = Question::new();
    let mut questions: Vec<Question> = Vec::new();
    let mut warnings: Vec<Warning> = Vec::new();
    proof {
        assert(events@.take(0) =~= seq![]);
        assert(parse_model(events@.take(0)) == parse_start());
        assert(assemble_model(seq![]) == assembly_start());
        assert(warnings_view(Seq::<Warning>::empty()) =~= seq![]);
        assert(names_view(open@) =~= seq![]);
        assert(names_view(texts@) =~= seq![]);
        assert(questions_view(questions@) =~= seq![]);
        assert(warnings_view(warnings@) =~= seq![]);
    }
    let mut i: usize = 0;
    while i < events.len()
        invariant
            i <= events@.len(),
            open@.len() == texts@.len(),
            names_view(open@) == parse_model(events@.take(i as int)).open,
            names_view(texts@) == parse_model(events@.take(i as int)).texts,
            assembly_state(current, questions@, seq![]) == assembly_cleared(
                assemble_model(parse_model(events@.take(i as int)).fragments),
            ),
            warnings_view(warnings@) == ingest_warnings(events@.take(i as int)),
        decreases events@.len() - i,
    {
        let ghost es = events@.take(i + 1);
        let ghost p = parse_model(events@.take(i as int));
        let ghost a = assemble_model(p.fragments);
        let mut fragments: Vec<Fragment> = Vec::new();
        let mut found: Vec<Warning> = Vec::new();
        proof {
            assert(es.drop_last() =~= events@.take(i as int));
            assert(fragments_view(fragments@) =~= seq![]);
            assert(warnings_view(found@) =~= seq![]);
            assert(parse_state(open@, texts@, fragments@, found@) == parse_cleared(p));
        }
        parse_event(&mut open, &mut texts, &mut fragments, &mut found, &events[i]);
        let ghost step = parse_step(parse_cleared(p), events@[i as int]);
        proof {
            lemma_parse_step_parts(p, events@[i as int]);
            lemma_assemble_split(assembly_start(), p.fragments, step.fragments);
            lemma_assembly_warnings_apart(a, step.fragments);
        }
        let ghost w0 = warnings@;
        let ghost w1 = found@;
        warnings.append(&mut found);
        let mut later: Vec<Warning> = Vec::new();
        let ghost before = assembly_state(current, questions@, later@);
        assert(before =~= assembly_cleared(a));
        assert(warnings_view(later@) =~= seq![]);
        assert(fragments_view(fragments@) == step.fragments);
        if fragments.len() > 0 {
            assert(step.fragments.drop_last() =~= seq![]);
            assert(assemble_from(before, step.fragments.drop_last()) == before);
            assert(step.fragments.last() == fragments@[0]@);
            assemble_fragment(&mut current, &mut questions, &mut later, &fragments[0]);
        } else {
            assert(step.fragments =~= seq![]);
        }
        let ghost after = assemble_from(assembly_cleared(a), step.fragments);
        assert(assembly_state(current, questions@, later@) == after);
        let ghost w2 = later@;
        warnings.append(&mut later);
        proof {
            assert(warnings_view(warnings@) =~= warnings_view(w0) + warnings_view(w1) + warnings_view(w2));
            assert(assembly_state(current, questions@, seq![]) =~= assembly_cleared(
                assemble_model(parse_model(es).fragments),
            ));
        }
        i = i + 1;
    }
    proof {
        assert(events@.take(i as int) =~= events@);
    }
    Ingested { questions, warnings }
}

/// Reads the questions of a markup document. A malformed document is an
/// error, with the reader's message.
pub fn get_questions_from_file(doc: &[u8]) -> (r: Result<Ingested, String>)
    ensures
        r is Ok <==> markup_events_of(doc@) is Some,
        r matches Ok(ing) ==> ({
            let es = markup_events_of(doc@).unwrap();
            &&& questions_view(ing.questions@) == assemble_model(parse_model(es).fragments).questions
            &&& warnings_view(ing.warnings@) == ingest_warnings(es)
        }),
{
    match read_markup(doc) {
        Ok(events) => Ok(questions_from_events(&events)),
        Err(e) => Err(e),
    }
}

/// A field closing inside a question.
pub open spec fn field(tag: Seq<char>, text: Seq<char>) -> FragmentView {
    FragmentView { tag, text, opening: false, in_question: true }
}

/// The boundary where a top-level `question` opens or closes, with the
/// text gathered inside it.
pub open spec fn boundary(opening: bool, text: Seq<char>) -> FragmentView {
    FragmentView { tag: "question"@, text, opening, in_question: false }
}

/// The texts of `ws` one after another.
pub open spec fn joined(ws: Seq<Seq<char>>) -> Seq<char>
    decreases ws.len(),
{
    if ws.len() == 0 {
        seq![]
    } else {
        joined(ws.drop_last()) + ws.last()
    }
}

/// All the text inside a question element written out from `q`.
pub open spec fn question_text(q: QuestionView) -> Seq<char> {
    q.text + q.answer + joined(q.wrong_answers)
}

/// The fragments that one top-level question is written as: its opening,
/// its prompt, its correct answer, each wrong answer, then its close.
pub open spec fn encode_question(q: QuestionView) -> Seq<FragmentView> {
    seq![boundary(true, seq![]), field("prompt"@, q.text), field("correctAnswer"@, q.answer)]
        + q.wrong_answers.map_values(|w: Seq<char>| field("incorrectAnswer"@, w)) + seq![
        boundary(false, question_text(q)),
    ]
}

pub open spec fn encode_questions(qs: Seq<QuestionView>) -> Seq<FragmentView>
    decreases qs.len(),
{
    if qs.len() == 0 {
        seq![]
    } else {
        encode_questions(qs.drop_last()) + encode_question(qs.last())
    }
}

proof fn lemma_assemble_split(st: AssemblyModel, a: Seq<FragmentView>, b: Seq<FragmentView>)
    ensures
        assemble_from(st, a + b) == assemble_from(assemble_from(st, a), b),
    decreases b.len(),
{
    if b.len() == 0 {
        assert(a + b =~= a);
    } else {
        assert((a + b).drop_last() =~= a + b.drop_last());
        lemma_assemble_split(st, a, b.drop_last());
    }
}

proof fn lemma_tags_differ()
    ensures
        "prompt"@ != "correctAnswer"@,
        "prompt"@ != "incorrectAnswer"@,
        "prompt"@ != "question"@,
        "correctAnswer"@ != "incorrectAnswer"@,
        "correctAnswer"@ != "question"@,
        "incorrectAnswer"@ != "question"@,
{
    reveal_strlit("prompt");
    reveal_strlit("correctAnswer");
    reveal_strlit("incorrectAnswer");
    reveal_strlit("question");
    assert("prompt"@.len() != "correctAnswer"@.len());
    assert("prompt"@.len() != "incorrectAnswer"@.len());
    assert("prompt"@[0] != "question"@[0]);
    assert("correctAnswer"@.len() != "incorrectAnswer"@.len());
    assert("correctAnswer"@.len() != "question"@.len());
    assert("incorrectAnswer"@.len() != "question"@.len());
}

proof fn lemma_wrong_answers(st: AssemblyModel, ws: Seq<Seq<char>>)
    ensures
        assemble_from(st, ws.map_values(|w: Seq<char>| field("incorrectAnswer"@, w))) == (
        AssemblyModel {
            current: QuestionView {
                wrong_answers: st.current.wrong_answers + ws,
                ..st.current
            },
            ..st
        }),
    decreases ws.len(),
{
    lemma_tags_differ();
    let fs = ws.map_values(|w: Seq<char>| field("incorrectAnswer"@, w));
    if ws.len() == 0 {
        assert(st.current.wrong_answers + ws =~= st.current.wrong_answers);
    } else {
        assert(fs.drop_last() =~= ws.drop_last().map_values(
            |w: Seq<char>| field("incorrectAnswer"@, w),
        ));
        lemma_wrong_answers(st, ws.drop_last());
        assert(fs.last() == field("incorrectAnswer"@, ws.last()));
        assert((st.current.wrong_answers + ws.drop_last()).push(ws.last()) =~= st.current.wrong_answers
            + ws);
    }
}

proof fn lemma_one_question(st: AssemblyModel, q: QuestionView)
    requires
        st.current == empty_question(),
        q.text.len() > 0,
    ensures
        assemble_from(st, encode_question(q)) == (AssemblyModel {
            questions: st.questions.push(q),
            ..st
        }),
{
    lemma_tags_differ();
    let head = seq![boundary(true, seq![]), field("prompt"@, q.text), field("correctAnswer"@, q.answer)];
    let mid = q.wrong_answers.map_values(|w: Seq<char>| field("incorrectAnswer"@, w));
    let tail = seq![boundary(false, question_text(q))];
    lemma_assemble_split(st, head + mid, tail);
    lemma_assemble_split(st, head, mid);
    assert(head.drop_last().drop_last().drop_last() =~= seq![]);
    assert(head.drop_last().drop_last() =~= seq![boundary(true, seq![])]);
    assert(head.drop_last() =~= seq![boundary(true, seq![]), field("prompt"@, q.text)]);
    assert(assemble_from(st, head.drop_last().drop_last().drop_last()) == st);
    let sb = assemble_from(st, head.drop_last().drop_last());
    assert(sb == assemble_step(st, boundary(true, seq![])));
    let s0 = assemble_from(st, head.drop_last());
    assert(s0 == assemble_step(sb, field("prompt"@, q.text)));
    let s1 = assemble_from(st, head);
    assert(s1 == assemble_step(s0, field("correctAnswer"@, q.answer)));
    assert(s1.current == QuestionView { wrong_answers: seq![], ..q });
    lemma_wrong_answers(s1, q.wrong_answers);
    let s2 = assemble_from(s1, mid);
    assert(seq![] + q.wrong_answers =~= q.wrong_answers);
    assert(s2.current == q);
    assert(tail.drop_last() =~= seq![]);
    assert(assemble_from(s2, tail.drop_last()) == s2);
    assert(assemble_from(s2, tail) == assemble_step(s2, boundary(false, question_text(q))));
    assert(encode_question(q) == head + mid + tail);
}

/// Writing well-formed questions as fragments and assembling them gives
/// back the same questions, in the same order, with no warning.
pub proof fn lemma_assemble_encoded(qs: Seq<QuestionView>)
    requires
        forall|i: int| 0 <= i < qs.len() ==> qs[i].text.len() > 0,
    ensures
        assemble_model(encode_questions(qs)) == (AssemblyModel {
            current: empty_question(),
            questions: qs,
            warnings: seq![],
        }),
    decreases qs.len(),
{
    if qs.len() == 0 {
        assert(qs =~= seq![]);
    } else {
        lemma_assemble_encoded(qs.drop_last());
        lemma_assemble_split(assembly_start(), encode_questions(qs.drop_last()), encode_question(qs.last()));
        lemma_one_question(assemble_model(encode_questions(qs.drop_last())), qs.last());
        assert(qs.drop_last().push(qs.last()) =~= qs);
    }
}

pub open spec fn opens(e: MarkupEvent, tag: Seq<char>) -> bool {
    e matches MarkupEvent::Open(n) && n@ == tag
}

pub open spec fn closes(e: MarkupEvent, tag: Seq<char>) -> bool {
    e matches MarkupEvent::Close(n) && n@ == tag
}

pub open spec fn holds_text(e: MarkupEvent, text: Seq<char>) -> bool {
    e matches MarkupEvent::Text(s) && s@ == text
}

/// `es` is the element `<tag>text</tag>`.
pub open spec fn element_events(es: Seq<MarkupEvent>, tag: Seq<char>, text: Seq<char>) -> bool {
    &&& es.len() == 3
    &&& opens(es[0], tag)
    &&& holds_text(es[1], text)
    &&& closes(es[2], tag)
}

pub open spec fn concat_events(blocks: Seq<Seq<MarkupEvent>>) -> Seq<MarkupEvent>
    decreases blocks.len(),
{
    if blocks.len() == 0 {
        seq![]
    } else {
        concat_events(blocks.drop_last()) + blocks.last()
    }
}

pub open spec fn inside_question(st: ParseModel) -> bool {
    st.open == seq!["question"@] && st.texts.len() == 1
}

proof fn lemma_element_in_question(st: ParseModel, es: Seq<MarkupEvent>, tag: Seq<char>, text: Seq<char>)
    requires
        inside_question(st),
        element_events(es, tag, text),
        tag != "question"@,
    ensures
        parse_from(st, es) == (ParseModel {
            fragments: st.fragments.push(field(tag, text)),
            texts: seq![st.texts[0] + text],
            ..st
        }),
{
    assert(es.drop_last().drop_last().drop_last() =~= seq![]);
    assert(parse_from(st, es.drop_last().drop_last().drop_last()) == st);
    let s1 = parse_from(st, es.drop_last().drop_last());
    assert(s1 == parse_step(st, es[0]));
    assert(s1.open =~= seq!["question"@, tag]);
    let s2 = parse_from(st, es.drop_last());
    assert(s2 == parse_step(s1, es[1]));
    assert(s1.texts =~= seq![st.texts[0], Seq::<char>::empty()]);
    assert(s2.texts =~= seq![st.texts[0] + text, Seq::<char>::empty() + text]);
    assert(Seq::<char>::empty() + text =~= text);
    let s3 = parse_from(st, es);
    assert(s3 == parse_step(s2, es[2]));
    assert(s2.open.drop_last() =~= seq!["question"@]);
    assert(has_question(s2.open.drop_last())) by {
        assert(s2.open.drop_last()[0] == "question"@);
    }
    assert(s3.open =~= st.open);
    assert(s3.texts =~= seq![st.texts[0] + text]);
}

/// One field of a question written as an element: its tag and its text.
pub type FieldChild = (Seq<char>, Seq<char>);

/// `q` with one field element applied to it.
pub open spec fn fill_field(q: QuestionView, c: FieldChild) -> QuestionView {
    if c.0 == "prompt"@ {
        QuestionView { text: c.1, ..q }
    } else if c.0 == "correctAnswer"@ {
        QuestionView { answer: c.1, ..q }
    } else {
        QuestionView { wrong_answers: q.wrong_answers.push(c.1), ..q }
    }
}

/// The question that the field elements `cs` describe, in their order.
pub open spec fn fill_question(cs: Seq<FieldChild>) -> QuestionView
    decreases cs.len(),
{
    if cs.len() == 0 {
        empty_question()
    } else {
        fill_field(fill_question(cs.drop_last()), cs.last())
    }
}

pub open spec fn child_texts(cs: Seq<FieldChild>) -> Seq<Seq<char>> {
    cs.map_values(|c: FieldChild| c.1)
}

pub open spec fn child_fragments(cs: Seq<FieldChild>) -> Seq<FragmentView> {
    cs.map_values(|c: FieldChild| field(c.0, c.1))
}

/// `es` is one field element for each of `cs`, in order.
pub open spec fn children_events(es: Seq<MarkupEvent>, cs: Seq<FieldChild>) -> bool
    decreases cs.len(),
{
    if cs.len() == 0 {
        es.len() == 0
    } else {
        &&& es.len() >= 3
        &&& children_events(es.subrange(0, es.len() - 3), cs.drop_last())
        &&& element_events(es.subrange(es.len() - 3, es.len() as int), cs.last().0, cs.last().1)
    }
}

/// `es` is one `question` element whose children are the field elements
/// `cs`, in any order and number.
pub open spec fn question_element_events(es: Seq<MarkupEvent>, cs: Seq<FieldChild>) -> bool {
    &&& es.len() >= 2
    &&& opens(es[0], "question"@)
    &&& children_events(es.subrange(1, es.len() - 1), cs)
    &&& closes(es.last(), "question"@)
    &&& forall|k: int| 0 <= k < cs.len() ==> is_field_tag(#[trigger] cs[k].0)
}

/// The fragments that a question element with children `cs` is read into.
pub open spec fn element_fragments(cs: Seq<FieldChild>) -> Seq<FragmentView> {
    seq![boundary(true, seq![])] + child_fragments(cs) + seq![boundary(false, joined(child_texts(cs)))]
}

pub open spec fn document_fragments(css: Seq<Seq<FieldChild>>) -> Seq<FragmentView>
    decreases css.len(),
{
    if css.len() == 0 {
        seq![]
    } else {
        document_fragments(css.drop_last()) + element_fragments(css.last())
    }
}

proof fn lemma_children_parse(st: ParseModel, es: Seq<MarkupEvent>, cs: Seq<FieldChild>)
    requires
        inside_question(st),
        children_events(es, cs),
        forall|k: int| 0 <= k < cs.len() ==> is_field_tag(#[trigger] cs[k].0),
    ensures
        parse_from(st, es) == (ParseModel {
            fragments: st.fragments + child_fragments(cs),
            texts: seq![st.texts[0] + joined(child_texts(cs))],
            ..st
        }),
    decreases cs.len(),
{
    lemma_tags_differ();
    if cs.len() == 0 {
        assert(st.fragments + child_fragments(cs) =~= st.fragments);
        assert(child_texts(cs) =~= seq![]);
        assert(st.texts[0] + joined(child_texts(cs)) =~= st.texts[0]);
        assert(seq![st.texts[0]] =~= st.texts);
    } else {
        let a = es.subrange(0, es.len() - 3);
        let b = es.subrange(es.len() - 3, es.len() as int);
        assert(a + b =~= es);
        lemma_parse_split(st, a, b);
        let cp = cs.drop_last();
        assert(forall|k: int| 0 <= k < cp.len() ==> is_field_tag(#[trigger] cp[k].0)) by {
            assert(forall|k: int| 0 <= k < cp.len() ==> cp[k] == cs[k]);
        }
        lemma_children_parse(st, a, cp);
        let sa = parse_from(st, a);
        assert(is_field_tag(cs[cs.len() - 1].0));
        lemma_element_in_question(sa, b, cs.last().0, cs.last().1);
        assert((st.fragments + child_fragments(cp)).push(field(cs.last().0, cs.last().1)) =~= st.fragments
            + child_fragments(cs));
        assert(child_texts(cp).push(cs.last().1) =~= child_texts(cs));
        assert(child_texts(cs).drop_last() =~= child_texts(cp));
        assert(st.texts[0] + joined(child_texts(cp)) + cs.last().1 =~= st.texts[0] + joined(
            child_texts(cs),
        ));
    }
}

proof fn lemma_element_parse(st: ParseModel, es: Seq<MarkupEvent>, cs: Seq<FieldChild>)
    requires
        st.open.len() == 0,
        st.texts.len() == 0,
        question_element_events(es, cs),
    ensures
        parse_from(st, es) == (ParseModel { fragments: st.fragments + element_fragments(cs), ..st }),
{
    let len = es.len() as int;
    let e0 = es.subrange(0, 1);
    let ec = es.subrange(1, len - 1);
    let el = es.subrange(len - 1, len);
    assert(e0 + ec + el =~= es);
    lemma_parse_split(st, e0 + ec, el);
    lemma_parse_split(st, e0, ec);
    assert(e0.drop_last() =~= seq![]);
    assert(parse_from(st, e0.drop_last()) == st);
    assert(e0.last() == es[0]);
    assert(!has_question(st.open));
    let s0 = parse_from(st, e0);
    assert(s0 == parse_step(st, es[0]));
    assert(s0.open =~= seq!["question"@]);
    assert(s0.texts =~= seq![Seq::<char>::empty()]);
    lemma_children_parse(s0, ec, cs);
    let s1 = parse_from(s0, ec);
    assert(el.drop_last() =~= seq![]);
    assert(parse_from(s1, el.drop_last()) == s1);
    assert(el.last() == es[len - 1]);
    assert(s1.open.drop_last() =~= seq![]);
    assert(!has_question(s1.open.drop_last()));
    assert(seq![] + joined(child_texts(cs)) =~= joined(child_texts(cs)));
    let s2 = parse_from(s1, el);
    assert(s2.open =~= st.open);
    assert(s2.texts =~= st.texts);
    assert(s2.fragments =~= st.fragments + element_fragments(cs));
}

proof fn lemma_children_assemble(st: AssemblyModel, cs: Seq<FieldChild>)
    requires
        st.current == empty_question(),
        forall|k: int| 0 <= k < cs.len() ==> is_field_tag(#[trigger] cs[k].0),
    ensures
        assemble_from(st, child_fragments(cs)) == (AssemblyModel { current: fill_question(cs), ..st }),
    decreases cs.len(),
{
    lemma_tags_differ();
    if cs.len() == 0 {
        assert(child_fragments(cs) =~= seq![]);
    } else {
        let cp = cs.drop_last();
        assert(forall|k: int| 0 <= k < cp.len() ==> is_field_tag(#[trigger] cp[k].0)) by {
            assert(forall|k: int| 0 <= k < cp.len() ==> cp[k] == cs[k]);
        }
        lemma_children_assemble(st, cp);
        assert(child_fragments(cs).drop_last() =~= child_fragments(cp));
        assert(is_field_tag(cs[cs.len() - 1].0));
        let q = fill_question(cp);
        let c = cs.last();
        assert(assemble_step(AssemblyModel { current: q, ..st }, field(c.0, c.1)).current
            == fill_field(q, c));
    }
}

proof fn lemma_element_assemble(st: AssemblyModel, cs: Seq<FieldChild>)
    requires
        fill_question(cs).text.len() > 0,
        forall|k: int| 0 <= k < cs.len() ==> is_field_tag(#[trigger] cs[k].0),
    ensures
        assemble_from(st, element_fragments(cs)) == (AssemblyModel {
            current: empty_question(),
            questions: st.questions.push(fill_question(cs)),
            ..st
        }),
{
    lemma_tags_differ();
    let head = seq![boundary(true, seq![])];
    let mid = child_fragments(cs);
    let tail = seq![boundary(false, joined(child_texts(cs)))];
    assert(element_fragments(cs) == head + mid + tail);
    lemma_assemble_split(st, head + mid, tail);
    lemma_assemble_split(st, head, mid);
    assert(head.drop_last() =~= seq![]);
    assert(assemble_from(st, head.drop_last()) == st);
    let s0 = assemble_from(st, head);
    assert(s0 == assemble_step(st, boundary(true, seq![])));
    lemma_children_assemble(s0, cs);
    let s1 = assemble_from(s0, mid);
    assert(tail.drop_last() =~= seq![]);
    assert(assemble_from(s1, tail.drop_last()) == s1);
}

/// A document made of top-level `question` elements, whose children are
/// prompt, correct-answer and wrong-answer elements holding text, in any
/// order, is read into one question per element, in document order: each
/// built from its own element's children alone. Every such question needs
/// a prompt, or it is dropped.
pub proof fn lemma_document_any_order(blocks: Seq<Seq<MarkupEvent>>, css: Seq<Seq<FieldChild>>)
    requires
        blocks.len() == css.len(),
        forall|i: int| 0 <= i < css.len() ==> question_element_events(#[trigger] blocks[i], css[i]),
        forall|i: int| 0 <= i < css.len() ==> #[trigger] fill_question(css[i]).text.len() > 0,
    ensures
        parse_model(concat_events(blocks)).fragments == document_fragments(css),
        parse_model(concat_events(blocks)).warnings.len() == 0,
        assemble_model(parse_model(concat_events(blocks)).fragments).questions == css.map_values(
            |cs: Seq<FieldChild>| fill_question(cs),
        ),
        assemble_model(parse_model(concat_events(blocks)).fragments).warnings.len() == 0,
        ingest_warnings(concat_events(blocks)).len() == 0,
    decreases css.len(),
{
    if css.len() == 0 {
        assert(parse_model(concat_events(blocks)) == parse_start());
        assert(css.map_values(|cs: Seq<FieldChild>| fill_question(cs)) =~= seq![]);
    } else {
        let bs = blocks.drop_last();
        let cp = css.drop_last();
        assert forall|i: int| 0 <= i < cp.len() implies question_element_events(
            #[trigger] bs[i],
            cp[i],
        ) by {
            assert(bs[i] == blocks[i]);
        }
        assert forall|i: int| 0 <= i < cp.len() implies #[trigger] fill_question(cp[i]).text.len()
            > 0 by {
            assert(cp[i] == css[i]);
        }
        lemma_document_any_order(bs, cp);
        let p = parse_model(concat_events(bs));
        assert(p.open.len() == 0 && p.texts.len() == 0) by {
            lemma_document_state(bs, cp);
        }
        lemma_parse_split(parse_start(), concat_events(bs), blocks.last());
        assert(question_element_events(blocks[blocks.len() - 1], css[css.len() - 1]));
        lemma_element_parse(p, blocks.last(), css.last());
        assert(fill_question(css[css.len() - 1]).text.len() > 0);
        lemma_assemble_split(assembly_start(), document_fragments(cp), element_fragments(css.last()));
        lemma_element_assemble(assemble_model(document_fragments(cp)), css.last());
        assert(css.map_values(|cs: Seq<FieldChild>| fill_question(cs)) =~= cp.map_values(
            |cs: Seq<FieldChild>| fill_question(cs),
        ).push(fill_question(css.last())));
    }
    lemma_ingest_warning_count(concat_events(blocks));
}

proof fn lemma_document_state(blocks: Seq<Seq<MarkupEvent>>, css: Seq<Seq<FieldChild>>)
    requires
        blocks.len() == css.len(),
        forall|i: int| 0 <= i < css.len() ==> question_element_events(#[trigger] blocks[i], css[i]),
    ensures
        parse_model(concat_events(blocks)).open.len() == 0,
        parse_model(concat_events(blocks)).texts.len() == 0,
        parse_model(concat_events(blocks)).warnings.len() == 0,
    decreases css.len(),
{
    if css.len() > 0 {
        let bs = blocks.drop_last();
        let cp = css.drop_last();
        assert forall|i: int| 0 <= i < cp.len() implies question_element_events(
            #[trigger] bs[i],
            cp[i],
        ) by {
            assert(bs[i] == blocks[i]);
        }
        lemma_document_state(bs, cp);
        lemma_parse_split(parse_start(), concat_events(bs), blocks.last());
        assert(question_element_events(blocks[blocks.len() - 1], css[css.len() - 1]));
        lemma_element_parse(parse_model(concat_events(bs)), blocks.last(), css.last());
    }
}

} // verus!

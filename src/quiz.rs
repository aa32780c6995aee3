//! Asking questions: shuffled options, key presses, and the running tally.

use crate::assemble::{Question, QuestionView};
use vstd::prelude::*;

verus! {

broadcast use {vstd::seq_lib::group_to_multiset_ensures, vstd::multiset::group_multiset_axioms};

/// `p` orders the indices `0..n`: it has `n` items and holds each index
/// exactly once.
pub open spec fn is_permutation(p: Seq<usize>, n: nat) -> bool {
    &&& p.len() == n
    &&& forall|k: usize| #[trigger]
        p.to_multiset().count(k) == if (k as nat) < n {
            1nat
        } else {
            0nat
        }
}

/// Relies on rand's `SliceRandom::shuffle` with `thread_rng`: it only swaps
/// items, so the vector keeps what it held.
#[verifier::external_body]
fn shuffle(v: &mut Vec<usize>)
    ensures
        final(v)@.len() == old(v)@.len(),
        final(v)@.to_multiset() == old(v)@.to_multiset(),
{
    rand::seq::SliceRandom::shuffle(v.as_mut_slice(), &mut rand::thread_rng())
}

/// A random order of the options of a question with `wrong` wrong answers;
/// index `wrong` stands for the correct answer.
pub fn shuffled_options(wrong: usize) -> (r: Vec<usize>)
    requires
        wrong < usize::MAX,
    ensures
        is_permutation(r@, wrong as nat + 1),
{
    let mut v: Vec<usize> = Vec::new();
    let mut i: usize = 0;
    while i <= wrong
        invariant
            wrong < usize::MAX,
            i <= wrong + 1,
            v@.len() == i,
            forall|k: usize| #[trigger]
                v@.to_multiset().count(k) == if k < i {
                    1nat
                } else {
                    0nat
                },
        decreases wrong + 1 - i,
    {
        v.push(i);
        i = i + 1;
    }
    shuffle(&mut v);
    v
}

/// The option shown at display position `pos`: the answer where the order
/// puts the correct slot there, else the wrong answer it names.
pub open spec fn option_at(q: QuestionView, order: Seq<usize>, pos: int) -> Seq<char> {
    if order[pos] == q.wrong_answers.len() {
        q.answer
    } else {
        q.wrong_answers[order[pos] as int]
    }
}

/// Every display position of a valid order refers to an option that exists,
/// and exactly one of them holds the correct answer.
pub proof fn lemma_one_correct_position(q: QuestionView, order: Seq<usize>)
    requires
        q.wrong_answers.len() < usize::MAX,
        is_permutation(order, q.wrong_answers.len() + 1),
    ensures
        forall|j: int| 0 <= j < order.len() ==> order[j] <= q.wrong_answers.len(),
        exists|j: int|
            0 <= j < order.len() && order[j] == q.wrong_answers.len() && option_at(q, order, j)
                == q.answer && forall|k: int|
                0 <= k < order.len() && k != j ==> order[k] < q.wrong_answers.len()
                    && option_at(q, order, k) == q.wrong_answers[order[k] as int],
{
    let m = q.wrong_answers.len();
    assert forall|j: int| 0 <= j < order.len() implies order[j] <= m by {
        assert(order.to_multiset().count(order[j]) > 0);
    }
    assert forall|x: usize| order.to_multiset().contains(x) implies order.to_multiset().count(x)
        == 1 by {}
    order.lemma_multiset_has_no_duplicates_conv();
    assert(order.to_multiset().count(m as usize) == 1);
    assert(order.contains(m as usize));
    assert(exists|j: int| 0 <= j < order.len() && order[j] == m as usize);
    let j = choose|j: int| 0 <= j < order.len() && order[j] == m as usize;
    assert forall|k: int| 0 <= k < order.len() && k != j implies order[k] < m && option_at(
        q,
        order,
        k,
    ) == q.wrong_answers[order[k] as int] by {
        assert(order.no_duplicates());
        assert(order[k] != order[j]);
        assert(order.to_multiset().count(order[k]) > 0);
    }
    assert(option_at(q, order, j) == q.answer);
}

proof fn lemma_map_keeps_multiset(a: Seq<usize>, b: Seq<usize>, g: spec_fn(usize) -> Seq<char>)
    requires
        a.to_multiset() == b.to_multiset(),
    ensures
        a.map_values(g).to_multiset() == b.map_values(g).to_multiset(),
    decreases a.len(),
{
    broadcast use vstd::seq_lib::to_multiset_remove;

    if a.len() == 0 {
        assert(b.to_multiset().len() == 0);
        assert(b.len() == 0);
        assert(a.map_values(g) =~= b.map_values(g));
    } else {
        let x = a.last();
        assert(a.drop_last().push(x) =~= a);
        assert(b.to_multiset().count(x) > 0);
        assert(b.contains(x));
        let i = choose|i: int| 0 <= i < b.len() && b[i] == x;
        let b1 = b.remove(i);
        assert(b1.to_multiset() =~= a.drop_last().to_multiset());
        lemma_map_keeps_multiset(a.drop_last(), b1, g);
        assert(a.drop_last().map_values(g).push(g(x)) =~= a.map_values(g));
        assert(b.map_values(g).remove(i) =~= b1.map_values(g));
        let mb = b.map_values(g).to_multiset();
        assert(mb.count(g(x)) > 0) by {
            assert(b.map_values(g)[i] == g(x));
        }
        assert(mb.remove(g(x)).insert(g(x)) =~= mb);
    }
}

pub open spec fn index_range(n: nat) -> Seq<usize> {
    Seq::new(n, |i: int| i as usize)
}

proof fn lemma_range_counts(n: nat)
    requires
        n <= usize::MAX + 1,
    ensures
        forall|k: usize| #[trigger]
            index_range(n).to_multiset().count(k) == if (k as nat) < n {
                1nat
            } else {
                0nat
            },
    decreases n,
{
    if n > 0 {
        lemma_range_counts((n - 1) as nat);
        assert(index_range((n - 1) as nat).push((n - 1) as usize) =~= index_range(n));
    } else {
        assert(index_range(n) =~= Seq::<usize>::empty());
    }
}

/// Whatever the order, the options shown for a question are its wrong
/// answers and its correct answer, each once.
pub proof fn lemma_shown_options_are_the_questions(q: QuestionView, order: Seq<usize>)
    requires
        q.wrong_answers.len() < usize::MAX,
        is_permutation(order, q.wrong_answers.len() + 1),
    ensures
        Seq::new(order.len(), |j: int| option_at(q, order, j)).to_multiset()
            == q.wrong_answers.push(q.answer).to_multiset(),
{
    let m = q.wrong_answers.len();
    let n = (m + 1) as nat;
    let g = |i: usize| if i as int == m { q.answer } else { q.wrong_answers[i as int] };
    let range = index_range(n);
    lemma_range_counts(n);
    assert(order.to_multiset() =~= range.to_multiset());
    lemma_map_keeps_multiset(order, range, g);
    assert(Seq::new(order.len(), |j: int| option_at(q, order, j)) =~= order.map_values(g));
    assert(range.map_values(g) =~= q.wrong_answers.push(q.answer));
}

/// The options of one question in display order, and where the correct
/// answer stands among them.
pub struct Round {
    pub order: Vec<usize>,
    pub correct_position: usize,
}

/// `r` is a round for question `q`: its order is valid and its correct
/// position holds the correct slot.
pub open spec fn round_fits(r: Round, q: QuestionView) -> bool {
    &&& is_permutation(r.order@, q.wrong_answers.len() + 1)
    &&& r.correct_position < r.order@.len()
    &&& r.order@[r.correct_position as int] == q.wrong_answers.len()
}

/// A round for `q` with the given display order.
pub fn round_with_order(q: &Question, order: Vec<usize>) -> (r: Round)
    requires
        is_permutation(order@, q@.wrong_answers.len() + 1),
    ensures
        r.order == order,
        round_fits(r, q@),
{
    let m = q.wrong_answers.len();
    let n = order.len();
    proof {
        assert(q@.wrong_answers.len() == m);
        lemma_one_correct_position(q@, order@);
    }
    let mut j: usize = 0;
    while j < n
        invariant
            m == q@.wrong_answers.len(),
            j <= order@.len(),
            n == order@.len(),
            is_permutation(order@, q@.wrong_answers.len() + 1),
            forall|k: int| 0 <= k < j ==> order@[k] != m,
        decreases order@.len() - j,
    {
        if order[j] == m {
            return Round { order, correct_position: j };
        }
        j = j + 1;
    }
    proof {
        let w = choose|w: int| 0 <= w < order@.len() && order@[w] == m;
        assert(order@[w] != m);
    }
    Round { order, correct_position: 0 }
}

/// The texts of the options of `q` in the given display order.
pub fn display_options(q: &Question, order: &Vec<usize>) -> (r: Vec<String>)
    requires
        is_permutation(order@, q@.wrong_answers.len() + 1),
    ensures
        r@.len() == order@.len(),
        forall|j: int| 0 <= j < order@.len() ==> #[trigger] r@[j]@ == option_at(q@, order@, j),
{
    let m = q.wrong_answers.len();
    let n = order.len();
    proof {
        assert(q@.wrong_answers.len() == m);
        lemma_one_correct_position(q@, order@);
    }
    let mut r: Vec<String> = Vec::new();
    let mut j: usize = 0;
    while j < n
        invariant
            m == q@.wrong_answers.len(),
            j <= order@.len(),
            n == order@.len(),
            r@.len() == j,
            forall|k: int| 0 <= k < order@.len() ==> order@[k] <= m,
            forall|k: int| 0 <= k < j ==> #[trigger] r@[k]@ == option_at(q@, order@, k),
        decreases order@.len() - j,
    {
        let slot = order[j];
        if slot == m {
            r.push(q.answer.clone());
        } else {
            r.push(q.wrong_answers[slot].clone());
        }
        j = j + 1;
    }
    r
}

/// The display position that a key names, where it is a digit from 1 to 9.
pub open spec fn pressed_position(key: char) -> Option<int> {
    if '1' <= key && key <= '9' {
        Some(key as int - '1' as int)
    } else {
        None
    }
}

/// The display position that `key` picks among `n` options, if any.
pub fn resolve_key(key: char, n: usize) -> (r: Option<usize>)
    ensures
        r is Some <==> (pressed_position(key) matches Some(p) && p < n),
        r matches Some(p) ==> pressed_position(key) == Some(p as int),
{
    if '1' <= key && key <= '9' {
        let p = (key as u32 - '1' as u32) as usize;
        if p < n {
            Some(p)
        } else {
            None
        }
    } else {
        None
    }
}

/// How many questions were answered right and how many wrong.
pub struct Tally {
    pub correct: usize,
    pub incorrect: usize,
}

impl Tally {
    pub fn new() -> (r: Tally)
        ensures
            r.correct == 0,
            r.incorrect == 0,
    {
        Tally { correct: 0, incorrect: 0 }
    }

    pub open spec fn total(self) -> int {
        self.correct + self.incorrect
    }

    /// Scores one answer: the chosen display position against the correct
    /// one. Exactly one counter goes up by one.
    pub fn record(&mut self, chosen: usize, correct_position: usize) -> (right: bool)
        requires
            old(self).total() < usize::MAX,
        ensures
            right == (chosen == correct_position),
            right ==> final(self).correct == old(self).correct + 1 && final(self).incorrect
                == old(self).incorrect,
            !right ==> final(self).incorrect == old(self).incorrect + 1 && final(self).correct
                == old(self).correct,
            final(self).total() == old(self).total() + 1,
    {
        if chosen == correct_position {
            self.correct = self.correct + 1;
            true
        } else {
            self.incorrect = self.incorrect + 1;
            false
        }
    }
}

/// What a key press did to the round in progress.
pub enum KeyOutcome {
    /// The key names no option shown, or no round is in progress.
    Ignored,
    /// The correct option was chosen.
    Correct,
    /// A wrong option was chosen.
    Wrong,
}

/// A quiz over a list of questions, asked in order. Each round shows one
/// question and waits for a key that names one of its options; then the
/// answer is scored and the round ends.
pub struct Quiz {
    pub questions: Vec<Question>,
    /// The index of the question being asked, or to be asked next; also the
    /// number of questions answered so far.
    pub next: usize,
    pub tally: Tally,
    /// The round in progress, for the question at `next`.
    pub round: Option<Round>,
}

impl Quiz {
    pub open spec fn wf(&self) -> bool {
        &&& self.next <= self.questions@.len()
        &&& self.tally.total() == self.next
        &&& forall|i: int|
            0 <= i < self.questions@.len() ==> #[trigger] self.questions@[i]@.wrong_answers.len()
                < usize::MAX
        &&& self.round matches Some(r) ==> self.next < self.questions@.len() && round_fits(
            r,
            self.questions@[self.next as int]@,
        )
    }

    /// A quiz that has asked nothing yet.
    pub fn new(questions: Vec<Question>) -> (r: Quiz)
        requires
            forall|i: int|
                0 <= i < questions@.len() ==> #[trigger] questions@[i]@.wrong_answers.len()
                    < usize::MAX,
        ensures
            r.wf(),
            r.questions == questions,
            r.next == 0,
            r.tally.correct == 0,
            r.tally.incorrect == 0,
            r.round is None,
    {
        Quiz { questions, next: 0, tally: Tally::new(), round: None }
    }

    /// Whether every question has been answered.
    pub fn is_done(&self) -> (r: bool)
        requires
            self.wf(),
        ensures
            r == (self.next == self.questions@.len()),
    {
        self.next == self.questions.len()
    }

    fn begin(&mut self, order: Vec<usize>) -> (r: Vec<String>)
        requires
            old(self).wf(),
            old(self).round is None,
            old(self).next < old(self).questions@.len(),
            is_permutation(order@, old(self).questions@[old(self).next as int]@.wrong_answers.len() + 1),
        ensures
            final(self).wf(),
            final(self).questions == old(self).questions,
            final(self).next == old(self).next,
            final(self).tally == old(self).tally,
            final(self).round matches Some(rd) && rd.order == order,
            r@.len() == order@.len(),
            forall|j: int|
                0 <= j < order@.len() ==> #[trigger] r@[j]@ == option_at(
                    old(self).questions@[old(self).next as int]@,
                    order@,
                    j,
                ),
    {
        let q = &self.questions[self.next];
        let shown = display_options(q, &order);
        let round = round_with_order(q, order);
        self.round = Some(round);
        shown
    }

    /// Starts the round for the next question with a random order of its
    /// options, and returns their texts in display order. Nothing happens
    /// where a round is already in progress or every question is answered.
    pub fn start_round(&mut self) -> (r: Option<Vec<String>>)
        requires
            old(self).wf(),
        ensures
            final(self).wf(),
            final(self).questions == old(self).questions,
            final(self).next == old(self).next,
            final(self).tally == old(self).tally,
            r is Some <==> (old(self).round is None && old(self).next < old(self).questions@.len()),
            r is None ==> *final(self) == *old(self),
            r matches Some(shown) ==> (final(self).round matches Some(rd) && shown@.len()
                == rd.order@.len() && forall|j: int|
                0 <= j < rd.order@.len() ==> #[trigger] shown@[j]@ == option_at(
                    old(self).questions@[old(self).next as int]@,
                    rd.order@,
                    j,
                )),
    {
        if self.round.is_some() || self.next >= self.questions.len() {
            return None;
        }
        let wrong = self.questions[self.next].wrong_answers.len();
        assert(self.questions@[self.next as int]@.wrong_answers.len() == wrong);
        let order = shuffled_options(wrong);
        Some(self.begin(order))
    }

    /// As `start_round`, with the display order given rather than drawn.
    pub fn start_round_with(&mut self, order: Vec<usize>) -> (r: Option<Vec<String>>)
        requires
            old(self).wf(),
            old(self).next < old(self).questions@.len() ==> is_permutation(
                order@,
                old(self).questions@[old(self).next as int]@.wrong_answers.len() + 1,
            ),
        ensures
            final(self).wf(),
            final(self).questions == old(self).questions,
            final(self).next == old(self).next,
            final(self).tally == old(self).tally,
            r is Some <==> (old(self).round is None && old(self).next < old(self).questions@.len()),
            r is None ==> *final(self) == *old(self),
            r matches Some(shown) ==> (final(self).round matches Some(rd) && rd.order == order
                && shown@.len() == order@.len() && forall|j: int|
                0 <= j < order@.len() ==> #[trigger] shown@[j]@ == option_at(
                    old(self).questions@[old(self).next as int]@,
                    order@,
                    j,
                )),
    {
        if self.round.is_some() || self.next >= self.questions.len() {
            return None;
        }
        Some(self.begin(order))
    }

    /// Handles one key press. A key that names a shown option ends the round:
    /// the answer is scored and the quiz moves to the next question. Any
    /// other key, or a key with no round in progress, changes nothing.
    pub fn press_key(&mut self, key: char) -> (r: KeyOutcome)
        requires
            old(self).wf(),
        ensures
            final(self).wf(),
            final(self).questions == old(self).questions,
            final(self).tally.correct >= old(self).tally.correct,
            final(self).tally.incorrect >= old(self).tally.incorrect,
            match old(self).round {
                None => r is Ignored && *final(self) == *old(self),
                Some(rd) => match pressed_position(key) {
                    Some(p) if p < rd.order@.len() => {
                        &&& final(self).round is None
                        &&& final(self).next == old(self).next + 1
                        &&& (r is Correct) == (p == rd.correct_position)
                        &&& (r is Wrong) == (p != rd.correct_position)
                        &&& r is Correct ==> final(self).tally.correct == old(self).tally.correct + 1
                            && final(self).tally.incorrect == old(self).tally.incorrect
                        &&& r is Wrong ==> final(self).tally.incorrect == old(self).tally.incorrect
                            + 1 && final(self).tally.correct == old(self).tally.correct
                    },
                    _ => r is Ignored && *final(self) == *old(self),
                },
            },
    {
        let (n, correct_position) = match &self.round {
            None => {
                return KeyOutcome::Ignored;
            },
            Some(rd) => (rd.order.len(), rd.correct_position),
        };
        let count = self.questions.len();
        assert(self.next < count);
        match resolve_key(key, n) {
            None => KeyOutcome::Ignored,
            Some(p) => {
                let right = self.tally.record(p, correct_position);
                self.next = self.next + 1;
                self.round = None;
                if right {
                    KeyOutcome::Correct
                } else {
                    KeyOutcome::Wrong
                }
            },
        }
    }
}

/// Once every question of a quiz has been answered, the two counters add
/// up to the number of questions: each answered question was counted once,
/// as right or as wrong.
pub proof fn lemma_finished_quiz_counts_every_question(quiz: Quiz)
    requires
        quiz.wf(),
        quiz.next == quiz.questions@.len(),
    ensures
        quiz.tally.correct + quiz.tally.incorrect == quiz.questions@.len(),
        quiz.round is None,
{
}

} // verus!

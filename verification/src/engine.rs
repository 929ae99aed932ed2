//! The practice engine: a session asks every pair of a set once per round,
//! and in the next round asks again those that were missed, until none is
//! left.
//!
//! The engine does not talk to anyone. Whoever runs a session shows the
//! definition of the current pair, obtains a [`Reply`] and hands it to
//! [`Pool::answer`], until the pool is finished.

use crate::parser::Pair;
use crate::random::shuffle;
use crate::text::{
    all_space, lemma_trim_ignores_space_around, lowercase, same_text, trim, trimmed,
};
use rand::thread_rng;
use vstd::multiset::Multiset;
use vstd::prelude::*;

verus! {

/// What came back when a definition was shown.
#[derive(Clone, Debug, PartialEq, Eq)]
pub enum Reply {
    /// The text that was typed.
    Answer(String),
    /// The question was passed over.
    Skipped,
    /// No reply could be had, and none will be: the cause, in words.
    Fatal(String),
}

/// A [`Reply`] as a mathematical value.
pub enum ReplyView {
    Answer(Seq<char>),
    Skipped,
    Fatal(Seq<char>),
}

impl View for Reply {
    type V = ReplyView;

    open spec fn view(&self) -> ReplyView {
        match self {
            Reply::Answer(text) => ReplyView::Answer(text@),
            Reply::Skipped => ReplyView::Skipped,
            Reply::Fatal(cause) => ReplyView::Fatal(cause@),
        }
    }
}

/// How a reply was judged.
#[derive(Clone, Copy, Debug, PartialEq, Eq, Structural)]
pub enum Verdict {
    /// The answer was the word: the pair is retired.
    Correct,
    /// The answer was not the word: the pair is asked again next round.
    Wrong,
    /// The question was passed over: the pair is asked again next round.
    Skipped,
    /// There was no reply to judge: the session cannot go on.
    Aborted,
}

/// The form in which an answer is compared: trimmed, then in lower case.
pub open spec fn normal_form(answer: Seq<char>) -> Seq<char> {
    lowercase(trim(answer))
}

/// Whether `reply` is the right answer for the word `front`.
pub open spec fn is_hit(reply: ReplyView, front: Seq<char>) -> bool {
    reply matches ReplyView::Answer(text) && normal_form(text) == front
}

/// The verdict on `reply` for the word `front`.
pub open spec fn verdict_of(reply: ReplyView, front: Seq<char>) -> Verdict {
    match reply {
        ReplyView::Answer(text) => if normal_form(text) == front {
            Verdict::Correct
        } else {
            Verdict::Wrong
        },
        ReplyView::Skipped => Verdict::Skipped,
        ReplyView::Fatal(_) => Verdict::Aborted,
    }
}

/// The form in which `answer` is compared with a word.
pub fn normalize(answer: &str) -> (normal: String)
    ensures
        normal@ == normal_form(answer@),
{
    let bare = trimmed(answer);
    bare.as_str().to_lowercase()
}

/// Tells whether an answer in normal form is the word `front`.
pub fn matches_front(normal: &String, front: &String) -> (hit: bool)
    ensures
        hit == (normal@ == front@),
{
    same_text(normal, front)
}

/// Tells whether `answer` is the word `front`, whatever its case and the
/// white space around it.
pub fn is_correct(answer: &str, front: &String) -> (hit: bool)
    ensures
        hit == is_hit(ReplyView::Answer(answer@), front@),
{
    let normal = normalize(answer);
    matches_front(&normal, front)
}

/// Judges `reply` for the word `front`.
pub fn judge(reply: &Reply, front: &String) -> (verdict: Verdict)
    ensures
        verdict == verdict_of(reply@, front@),
{
    match reply {
        Reply::Answer(text) => {
            if is_correct(text.as_str(), front) {
                Verdict::Correct
            } else {
                Verdict::Wrong
            }
        },
        Reply::Skipped => Verdict::Skipped,
        Reply::Fatal(_) => Verdict::Aborted,
    }
}

/// White space around an answer does not count: with it and without it the
/// answer is judged alike.
pub proof fn lemma_space_around_answer(
    before: Seq<char>,
    answer: Seq<char>,
    after: Seq<char>,
    front: Seq<char>,
)
    requires
        all_space(before),
        all_space(after),
    ensures
        verdict_of(ReplyView::Answer(before + answer + after), front) == verdict_of(
            ReplyView::Answer(answer),
            front,
        ),
{
    lemma_trim_ignores_space_around(before, answer, after);
}

/// Case does not count: two answers whose trimmed forms are the same in lower
/// case are judged alike.
pub proof fn lemma_case_of_answer(answer: Seq<char>, other: Seq<char>, front: Seq<char>)
    requires
        lowercase(trim(answer)) == lowercase(trim(other)),
    ensures
        verdict_of(ReplyView::Answer(answer), front) == verdict_of(ReplyView::Answer(other), front),
{
}

/// The pairs among `asked` whose reply in `replies` was not the right answer,
/// in the order in which they were asked.
pub open spec fn misses(asked: Seq<Pair>, replies: Seq<ReplyView>) -> Seq<Pair>
    decreases asked.len(),
{
    if asked.len() == 0 || replies.len() == 0 {
        Seq::empty()
    } else {
        let before = misses(asked.drop_last(), replies.drop_last());
        if is_hit(replies.last(), asked.last().0) {
            before
        } else {
            before.push(asked.last())
        }
    }
}

/// A report on a round that has just ended.
#[derive(Clone, Copy, Debug, PartialEq, Eq, Structural)]
pub struct Progress {
    /// How many pairs of the round were answered correctly.
    pub completed: usize,
    /// How many pairs the round asked.
    pub total: usize,
}

/// What an answer led to.
#[derive(Clone, Copy, Debug, PartialEq, Eq)]
pub struct Outcome {
    /// How the reply was judged.
    pub verdict: Verdict,
    /// The report on the round, where the reply ended one.
    pub round_over: Option<Progress>,
}

/// A session as a mathematical value.
pub struct Session {
    /// The pairs still to be asked in this round, the next one first.
    pub queue: Seq<Pair>,
    /// The pairs asked in this round so far, in order.
    pub asked: Seq<Pair>,
    /// The reply that each of them got.
    pub replies: Seq<ReplyView>,
    /// The number of this round, counted from 1.
    pub round: nat,
    /// The pairs answered correctly since the session began.
    pub mastered: Multiset<Pair>,
    /// The pairs that the session was started with.
    pub initial: Multiset<Pair>,
}

impl Session {
    /// The session that is about to ask the pairs of `order`, in that order.
    pub open spec fn start(order: Seq<Pair>) -> Session {
        Session {
            queue: order,
            asked: Seq::empty(),
            replies: Seq::empty(),
            round: 1,
            mastered: Multiset::empty(),
            initial: order.to_multiset(),
        }
    }

    /// Whether the session has ended: nothing is left to ask.
    pub open spec fn finished(self) -> bool {
        self.queue.len() == 0
    }

    /// The pair that is being asked.
    pub open spec fn current(self) -> Pair
        recommends
            !self.finished(),
    {
        self.queue.first()
    }

    /// The pairs missed in this round so far, in the order in which they were asked.
    pub open spec fn missed(self) -> Seq<Pair> {
        misses(self.asked, self.replies)
    }

    /// How many pairs this round asks.
    pub open spec fn total(self) -> nat {
        self.asked.len() + self.queue.len()
    }

    /// The pairs that are not mastered yet.
    pub open spec fn pending(self) -> Multiset<Pair> {
        self.queue.to_multiset().add(self.missed().to_multiset())
    }

    /// What holds of every session: each pair asked has its reply, none of
    /// them a failure; a round that has asked all its pairs is closed at once;
    /// and the pairs mastered and those pending are together the pairs that
    /// the session was started with.
    pub open spec fn wf(self) -> bool {
        &&& self.asked.len() == self.replies.len()
        &&& forall|i: int| 0 <= i < self.replies.len() ==> !(#[trigger] self.replies[i] is Fatal)
        &&& self.round >= 1
        &&& self.queue.len() == 0 ==> self.asked.len() == 0
        &&& self.pending().add(self.mastered) == self.initial
    }

    /// The session once `reply` has been taken for the current pair, before
    /// the round is closed if that was its last pair.
    pub open spec fn judged(self, reply: ReplyView) -> Session
        recommends
            !self.finished(),
    {
        Session {
            queue: self.queue.drop_first(),
            asked: self.asked.push(self.current()),
            replies: self.replies.push(reply),
            mastered: if is_hit(reply, self.current().0) {
                self.mastered.insert(self.current())
            } else {
                self.mastered
            },
            ..self
        }
    }

    /// The session that follows a round in which every pair has been asked,
    /// where `order` is the order in which the next round asks.
    pub open spec fn next_round(self, order: Seq<Pair>) -> Session {
        Session {
            queue: order,
            asked: Seq::empty(),
            replies: Seq::empty(),
            round: self.round + 1,
            ..self
        }
    }

    /// Whether `next` may follow `self` on `reply`. A failure changes
    /// nothing, and so does any reply to a finished session. Otherwise the
    /// reply is taken for the current pair; where that was the last pair of
    /// the round, the next round asks the pairs that were missed, in any order.
    pub open spec fn step(self, reply: ReplyView, next: Session) -> bool {
        if self.finished() || reply is Fatal {
            next == self
        } else if self.queue.len() > 1 {
            next == self.judged(reply)
        } else {
            &&& next == self.judged(reply).next_round(next.queue)
            &&& next.queue.to_multiset() == self.judged(reply).missed().to_multiset()
        }
    }

    /// The outcome of `reply` where `next` follows `self` on it.
    pub open spec fn outcome(self, reply: ReplyView, next: Session) -> Outcome
        recommends
            !self.finished(),
    {
        Outcome {
            verdict: verdict_of(reply, self.current().0),
            round_over: if self.queue.len() == 1 && !(reply is Fatal) {
                Some(
                    Progress {
                        completed: (self.total() - next.queue.len()) as usize,
                        total: self.total() as usize,
                    },
                )
            } else {
                None
            },
        }
    }
}

/// The pairs missed are among the pairs asked: there are at most as many, and
/// each is a pair whose reply was not the right answer.
pub proof fn lemma_misses(asked: Seq<Pair>, replies: Seq<ReplyView>)
    requires
        asked.len() == replies.len(),
    ensures
        misses(asked, replies).len() <= asked.len(),
        forall|j: int|
            0 <= j < misses(asked, replies).len() ==> exists|i: int|
                0 <= i < asked.len() && asked[i] == #[trigger] misses(asked, replies)[j] && !is_hit(
                    replies[i],
                    asked[i].0,
                ),
        forall|i: int|
            0 <= i < asked.len() && !is_hit(replies[i], asked[i].0) ==> misses(
                asked,
                replies,
            ).contains(#[trigger] asked[i]),
    decreases asked.len(),
{
    if asked.len() > 0 {
        let a = asked.drop_last();
        let r = replies.drop_last();
        let all = misses(asked, replies);
        lemma_misses(a, r);
        assert forall|j: int| 0 <= j < all.len() implies exists|i: int|
            0 <= i < asked.len() && asked[i] == #[trigger] all[j] && !is_hit(
                replies[i],
                asked[i].0,
            ) by {
            if j < misses(a, r).len() {
                let i = choose|i: int|
                    0 <= i < a.len() && a[i] == misses(a, r)[j] && !is_hit(r[i], a[i].0);
                assert(asked[i] == a[i] && replies[i] == r[i]);
            } else {
                let i = asked.len() - 1;
                assert(asked[i] == all[j]);
            }
        }
        assert forall|i: int|
            0 <= i < asked.len() && !is_hit(replies[i], asked[i].0) implies all.contains(
            #[trigger] asked[i],
        ) by {
            if i < a.len() {
                assert(a[i] == asked[i] && r[i] == replies[i]);
                assert(misses(a, r).contains(a[i]));
                let j = choose|j: int| 0 <= j < misses(a, r).len() && misses(a, r)[j] == a[i];
                assert(all[j] == asked[i]);
            } else {
                assert(all[all.len() - 1] == asked[i]);
            }
        }
    }
}

/// No pairs, counted, are no pairs.
proof fn lemma_empty_to_multiset()
    ensures
        Seq::<Pair>::empty().to_multiset() == Multiset::<Pair>::empty(),
{
    broadcast use vstd::seq_lib::to_multiset_len, vstd::multiset::lemma_multiset_empty_len;

    assert(Seq::<Pair>::empty().to_multiset().len() == 0);
}

/// A list holds its first pair and the pairs of the rest.
proof fn lemma_first_to_multiset(s: Seq<Pair>)
    requires
        s.len() > 0,
    ensures
        s.to_multiset() == s.drop_first().to_multiset().insert(s.first()),
{
    broadcast use vstd::seq_lib::group_to_multiset_ensures;

    assert(s.remove(0) =~= s.drop_first());
    assert(s.contains(s[0]));
    assert(s.to_multiset() =~= s.to_multiset().remove(s[0]).insert(s[0]));
}

/// What taking a reply for the current pair does to the pairs missed, and
/// that it loses no pair and makes none.
pub proof fn lemma_judged(s: Session, reply: ReplyView)
    requires
        s.wf(),
        !s.finished(),
        !(reply is Fatal),
    ensures
        s.judged(reply).missed() == if is_hit(reply, s.current().0) {
            s.missed()
        } else {
            s.missed().push(s.current())
        },
        s.judged(reply).missed().len() <= s.judged(reply).asked.len(),
        s.judged(reply).pending().add(s.judged(reply).mastered) == s.initial,
        s.judged(reply).asked.len() == s.judged(reply).replies.len(),
        forall|i: int|
            0 <= i < s.judged(reply).replies.len() ==> !(#[trigger] s.judged(reply).replies[i]
                is Fatal),
{
    broadcast use vstd::seq_lib::group_to_multiset_ensures;

    let mid = s.judged(reply);
    assert(mid.asked.drop_last() =~= s.asked);
    assert(mid.replies.drop_last() =~= s.replies);
    lemma_misses(mid.asked, mid.replies);
    lemma_first_to_multiset(s.queue);
    assert(mid.pending().add(mid.mastered) =~= s.pending().add(s.mastered));
}

/// A practice session over one set of pairs.
pub struct Pool {
    /// The pairs still to be asked in this round, the next one last.
    definitions: Vec<(String, String)>,
    /// The pairs missed in this round so far.
    missed: Vec<(String, String)>,
    /// How many pairs this round asks.
    total: usize,
    /// The number of this round; it stays at the largest number once there.
    round: u64,
    /// The session that this pool is in.
    session: Ghost<Session>,
}

impl View for Pool {
    type V = Session;

    closed spec fn view(&self) -> Session {
        self.session@
    }
}

impl Pool {
    /// What holds of every pool that this module hands out: its fields match
    /// the session it stands for, and that session is well formed.
    pub closed spec fn wf(&self) -> bool {
        &&& self@.wf()
        &&& self.definitions.deep_view() == self@.queue.reverse()
        &&& self.missed.deep_view() == self@.missed()
        &&& self.total == self@.total()
        &&& self.round == if self@.round < u64::MAX {
            self@.round
        } else {
            u64::MAX as nat
        }
    }

    /// The session of a well-formed pool is well formed.
    pub proof fn lemma_wf(&self)
        requires
            self.wf(),
        ensures
            self@.wf(),
    {
    }

    /// A pool that asks the pairs of `order` in its first round, in that order.
    pub fn arranged(order: Vec<(String, String)>) -> (pool: Pool)
        ensures
            pool.wf(),
            pool@ == Session::start(order.deep_view()),
    {
        let mut order = order;
        let ghost given = order.deep_view();
        let total = order.len();
        let mut definitions: Vec<(String, String)> = Vec::new();
        assert(definitions.deep_view() =~= given.skip(given.len() as int).reverse());
        while order.len() > 0
            invariant
                order.len() <= given.len(),
                order.deep_view() == given.take(order.len() as int),
                definitions.deep_view() == given.skip(order.len() as int).reverse(),
            decreases order.len(),
        {
            let ghost before = definitions.deep_view();
            let ghost n = order.len() as int;
            let ghost last = order@[n - 1];
            assert(order.deep_view()[n - 1] == last.deep_view());
            let pair = order.pop().unwrap();
            definitions.push(pair);
            assert(order.deep_view() =~= given.take(n - 1));
            assert(definitions.deep_view() =~= before.push(given[n - 1]));
            assert(definitions.deep_view() =~= given.skip(n - 1).reverse());
        }
        assert(given.skip(0) =~= given);
        let missed: Vec<(String, String)> = Vec::new();
        assert(missed.deep_view() =~= Seq::empty());
        let ghost session = Session::start(given);
        proof {
            assert(session.pending().add(session.mastered) =~= session.initial) by {
                lemma_empty_to_multiset();
            }
        }
        Pool { definitions, missed, total, round: 1, session: Ghost(session) }
    }

    /// Starts a session on `definitions`, which the first round asks in a
    /// random order.
    pub fn new(definitions: Vec<(String, String)>) -> (pool: Pool)
        ensures
            pool.wf(),
            pool@ == Session::start(pool@.queue),
            pool@.queue.to_multiset() == definitions.deep_view().to_multiset(),
    {
        let mut rng = thread_rng();
        let mut def = definitions;
        shuffle(&mut def, &mut rng);
        Pool::arranged(def)
    }

    /// Takes `reply` as the reply to the current pair. A correct answer
    /// retires the pair; a wrong one, or none, keeps it for the next round.
    /// With the last pair of a round the round ends: the pairs missed in it
    /// are put in a random order and make up the next round. A failure
    /// changes nothing. Once the session has ended there is no pair to
    /// answer for: nothing changes and nothing is returned.
    pub fn answer(&mut self, reply: Reply) -> (outcome: Option<Outcome>)
        requires
            old(self).wf(),
        ensures
            final(self).wf(),
            old(self)@.step(reply@, final(self)@),
            outcome == if old(self)@.finished() {
                None
            } else {
                Some(old(self)@.outcome(reply@, final(self)@))
            },
    {
        let ghost s = self@;
        let ghost stack = self.definitions.deep_view();
        let n = self.definitions.len();
        assert(stack.len() == n);
        if n == 0 {
            return None;
        }
        assert(self.definitions@[n - 1].deep_view() == stack[n - 1]);
        let verdict = judge(&reply, &self.definitions[n - 1].0);
        if verdict == Verdict::Aborted {
            return Some(Outcome { verdict, round_over: None });
        }
        let ghost mid = s.judged(reply@);
        let ghost kept = self.missed.deep_view();
        proof {
            lemma_judged(s, reply@);
        }
        let pair = self.definitions.pop().unwrap();
        assert(self.definitions.deep_view() =~= stack.drop_last());
        assert(stack.drop_last() =~= mid.queue.reverse());
        if verdict != Verdict::Correct {
            self.missed.push(pair);
            assert(self.missed.deep_view() =~= kept.push(s.current()));
        }
        assert(self.missed.deep_view() == mid.missed());
        if self.definitions.len() > 0 {
            self.session = Ghost(mid);
            return Some(Outcome { verdict, round_over: None });
        }
        let mut rng = thread_rng();
        shuffle(&mut self.missed, &mut rng);
        core::mem::swap(&mut self.definitions, &mut self.missed);
        let total = self.total;
        let ghost order = self.definitions.deep_view().reverse();
        let ghost next = mid.next_round(order);
        proof {
            broadcast use vstd::seq_lib::group_to_multiset_ensures;

            self.definitions.deep_view().lemma_reverse_to_multiset();
            assert(order.reverse() =~= self.definitions.deep_view());
            assert(self.missed.deep_view() =~= Seq::empty());
            lemma_empty_to_multiset();
            assert(mid.queue =~= Seq::empty());
            assert(next.pending().add(next.mastered) =~= mid.pending().add(mid.mastered));
            assert(order.to_multiset().len() == order.len());
            assert(mid.missed().to_multiset().len() == mid.missed().len());
        }
        self.total = self.definitions.len();
        if self.round < u64::MAX {
            self.round += 1;
        }
        self.session = Ghost(next);
        let report = Progress { completed: total - self.total, total };
        Some(Outcome { verdict, round_over: Some(report) })
    }

    /// Tells whether the session has ended.
    pub fn is_finished(&self) -> (done: bool)
        requires
            self.wf(),
        ensures
            done == self@.finished(),
    {
        assert(self.definitions.deep_view().len() == self@.queue.len());
        self.definitions.len() == 0
    }

    /// The pair that is being asked: its definition is to be shown, its word
    /// is the answer. There is none once the session has ended.
    pub fn current(&self) -> (pair: Option<&(String, String)>)
        requires
            self.wf(),
        ensures
            pair is None <==> self@.finished(),
            pair matches Some(p) ==> p.deep_view() == self@.current(),
    {
        let n = self.definitions.len();
        let ghost stack = self.definitions.deep_view();
        assert(stack.len() == n);
        if n == 0 {
            None
        } else {
            assert(self.definitions@[n - 1].deep_view() == stack[n - 1]);
            Some(&self.definitions[n - 1])
        }
    }

    /// The number of the round that the session is in, counted from 1; once
    /// the session has ended, one more than the number of rounds it took. It
    /// stays at the largest number that it can hold.
    pub fn round(&self) -> (round: u64)
        requires
            self.wf(),
        ensures
            round == if self@.round < u64::MAX {
                self@.round
            } else {
                u64::MAX as nat
            },
    {
        self.round
    }

    /// How many pairs the round asks that the session is in.
    pub fn total(&self) -> (total: usize)
        requires
            self.wf(),
        ensures
            total == self@.total(),
    {
        self.total
    }

    /// How many pairs the round has asked so far.
    pub fn asked_count(&self) -> (asked: usize)
        requires
            self.wf(),
        ensures
            asked == self@.asked.len(),
    {
        assert(self.definitions.deep_view().len() == self@.queue.len());
        self.total - self.definitions.len()
    }

    /// How many pairs the round has missed so far.
    pub fn missed_count(&self) -> (missed: usize)
        requires
            self.wf(),
        ensures
            missed == self@.missed().len(),
    {
        assert(self.missed.deep_view().len() == self@.missed().len());
        self.missed.len()
    }
}

/// No step loses a pair or makes one: after it the session is well formed as
/// before, the pairs mastered and the pairs pending are together the pairs
/// that the session was started with, and those are the same as before.
pub proof fn lemma_step_keeps_pairs(s: Session, reply: ReplyView, next: Session)
    requires
        s.wf(),
        s.step(reply, next),
    ensures
        next.wf(),
        next.initial == s.initial,
        next.pending().add(next.mastered) == s.pending().add(s.mastered),
{
    if !s.finished() && !(reply is Fatal) {
        let mid = s.judged(reply);
        lemma_judged(s, reply);
        if s.queue.len() == 1 {
            lemma_empty_to_multiset();
            assert(mid.queue =~= Seq::empty());
            assert(next.pending().add(next.mastered) =~= mid.pending().add(mid.mastered));
        }
    }
}

/// Within a round the list of pairs that the round asks stays as it is, and
/// so does the number of the round.
pub proof fn lemma_round_goes_on(s: Session, reply: ReplyView, next: Session)
    requires
        s.wf(),
        s.step(reply, next),
        s.queue.len() > 1,
    ensures
        next.round == s.round,
        next.asked + next.queue == s.asked + s.queue,
{
    if !(reply is Fatal) {
        assert(next.asked + next.queue =~= s.asked + s.queue);
    }
}

/// The end of a round: the next round asks no more pairs than this one did,
/// and each pair that it asks was asked in this one and got a reply that was
/// not the right answer.
pub proof fn lemma_round_ends(s: Session, reply: ReplyView, next: Session)
    requires
        s.wf(),
        s.step(reply, next),
        s.queue.len() == 1,
        !(reply is Fatal),
    ensures
        next.round == s.round + 1,
        next.total() <= s.total(),
        next.queue.to_multiset() == misses(s.asked + s.queue, s.replies.push(reply)).to_multiset(),
        forall|j: int|
            0 <= j < next.queue.len() ==> exists|i: int|
                0 <= i < s.total() && (s.asked + s.queue)[i] == #[trigger] next.queue[j] && !is_hit(
                    s.replies.push(reply)[i],
                    (s.asked + s.queue)[i].0,
                ),
{
    broadcast use vstd::seq_lib::group_to_multiset_ensures;

    let mid = s.judged(reply);
    let working = s.asked + s.queue;
    let replies = s.replies.push(reply);
    assert(mid.asked =~= working);
    lemma_judged(s, reply);
    lemma_misses(working, replies);
    let missed = misses(working, replies);
    assert(next.queue.to_multiset().len() == next.queue.len());
    assert(missed.to_multiset().len() == missed.len());
    assert forall|j: int| 0 <= j < next.queue.len() implies exists|i: int|
        0 <= i < s.total() && working[i] == #[trigger] next.queue[j] && !is_hit(
            replies[i],
            working[i].0,
        ) by {
        let pair = next.queue[j];
        assert(next.queue.contains(pair));
        assert(next.queue.to_multiset().count(pair) > 0);
        assert(missed.contains(pair));
        let k = choose|k: int| 0 <= k < missed.len() && missed[k] == pair;
        assert(missed[k] == pair);
    }
}

/// A right answer takes one pair from those pending and adds it to those
/// mastered; any other reply leaves both as they are. The session has ended
/// exactly when no pair is pending, which is when every pair that it was
/// started with is mastered.
pub proof fn lemma_progress(s: Session, reply: ReplyView, next: Session)
    requires
        s.wf(),
        !s.finished(),
        s.step(reply, next),
    ensures
        is_hit(reply, s.current().0) ==> next.pending().len() == s.pending().len() - 1
            && next.mastered == s.mastered.insert(s.current()),
        !is_hit(reply, s.current().0) ==> next.pending().len() == s.pending().len()
            && next.mastered == s.mastered && !next.finished(),
        next.finished() <==> next.pending().len() == 0,
        next.finished() <==> next.mastered == next.initial,
{
    lemma_step_keeps_pairs(s, reply, next);
    lemma_ended(s);
    lemma_ended(next);
    if !(reply is Fatal) {
        lemma_judged(s, reply);
        assert(s.pending().add(s.mastered).len() == next.pending().add(next.mastered).len());
        if is_hit(reply, s.current().0) {
            assert(next.mastered.len() == s.mastered.len() + 1);
        }
    }
}

/// A well-formed session has ended exactly when no pair is pending, which is
/// when every pair that it was started with is mastered.
pub proof fn lemma_ended(s: Session)
    requires
        s.wf(),
    ensures
        s.finished() <==> s.pending().len() == 0,
        s.finished() <==> s.mastered == s.initial,
{
    broadcast use vstd::seq_lib::group_to_multiset_ensures;

    assert(s.queue.to_multiset().len() == s.queue.len());
    assert(s.missed().to_multiset().len() == s.missed().len());
    assert(s.initial.len() == s.pending().len() + s.mastered.len());
    if s.finished() {
        vstd::multiset::lemma_multiset_empty_len(s.pending());
        assert(s.pending().add(s.mastered) =~= s.mastered);
    }
}

/// Whether `states` is a run of a session on `replies`: each state follows
/// the one before it on the reply given then.
pub open spec fn is_run(states: Seq<Session>, replies: Seq<ReplyView>) -> bool {
    &&& states.len() == replies.len() + 1
    &&& forall|i: int|
        0 <= i < replies.len() ==> (#[trigger] states[i]).step(replies[i], states[i + 1])
}

/// Whether every reply of the run that was given to a pair was the right
/// answer for it.
pub open spec fn all_hits(states: Seq<Session>, replies: Seq<ReplyView>) -> bool {
    forall|i: int|
        0 <= i < replies.len() && !(#[trigger] states[i]).finished() ==> is_hit(
            replies[i],
            states[i].current().0,
        )
}

/// How many of the first `k` replies of the run were the right answer for the
/// pair they were given to.
pub open spec fn right_answers(states: Seq<Session>, replies: Seq<ReplyView>, k: int) -> nat
    decreases k,
{
    if k <= 0 {
        0
    } else {
        let before = right_answers(states, replies, k - 1);
        if !states[k - 1].finished() && is_hit(replies[k - 1], states[k - 1].current().0) {
            before + 1
        } else {
            before
        }
    }
}

/// Each pair is answered correctly once: after any `k` replies of a run, as
/// many pairs more are mastered, and as many fewer are pending, as right
/// answers were given. So the session has ended exactly when there were as
/// many right answers as pairs were pending at the start of the run.
pub proof fn lemma_run(states: Seq<Session>, replies: Seq<ReplyView>, k: int)
    requires
        is_run(states, replies),
        states[0].wf(),
        0 <= k <= replies.len(),
    ensures
        states[k].wf(),
        states[k].initial == states[0].initial,
        states[k].pending().len() + right_answers(states, replies, k) == states[0].pending().len(),
        states[k].mastered.len() == states[0].mastered.len() + right_answers(states, replies, k),
        states[k].finished() <==> right_answers(states, replies, k) == states[0].pending().len(),
    decreases k,
{
    if k > 0 {
        lemma_run(states, replies, k - 1);
        let s = states[k - 1];
        let next = states[k];
        assert(s.step(replies[k - 1], next));
        lemma_step_keeps_pairs(s, replies[k - 1], next);
        if !s.finished() {
            lemma_progress(s, replies[k - 1], next);
        }
    }
    lemma_ended(states[k]);
}

/// A session ends: a run in which every answer is right has ended once it
/// holds as many answers as pairs were pending at its start, and then every
/// pair is mastered.
pub proof fn lemma_right_answers_end_the_session(states: Seq<Session>, replies: Seq<ReplyView>)
    requires
        is_run(states, replies),
        states[0].wf(),
        all_hits(states, replies),
        replies.len() >= states[0].pending().len(),
    ensures
        states.last().finished(),
        states.last().mastered == states[0].initial,
{
    let n = replies.len() as int;
    lemma_all_right(states, replies, n);
    lemma_run(states, replies, n);
    lemma_ended(states.last());
}

/// Where every answer of a run is right, each of its replies is a right
/// answer until no pair is pending.
proof fn lemma_all_right(states: Seq<Session>, replies: Seq<ReplyView>, k: int)
    requires
        is_run(states, replies),
        states[0].wf(),
        all_hits(states, replies),
        0 <= k <= replies.len(),
    ensures
        right_answers(states, replies, k) == if k <= states[0].pending().len() {
            k
        } else {
            states[0].pending().len() as int
        },
    decreases k,
{
    if k > 0 {
        lemma_all_right(states, replies, k - 1);
        lemma_run(states, replies, k - 1);
    }
}

} // verus!

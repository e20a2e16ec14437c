//! Confirmation gate and removal queue.
//!
//! A match list becomes a removal queue only when the user's answer, once
//! trimmed of surrounding whitespace and lower-cased, is exactly `"y"`; any
//! other answer plans no removals at all. The queue is then worked through
//! one path at a time, and advancing past a path does not depend on whether
//! its removal succeeded: one failed removal never holds back the rest.

use vstd::prelude::*;

verus! {

/// The characters of `str::trim(s)`, s with surrounding whitespace removed.
pub uninterp spec fn trimmed_of(s: Seq<char>) -> Seq<char>;

/// The characters of `str::to_lowercase(s)`.
pub uninterp spec fn lower_of(s: Seq<char>) -> Seq<char>;

/// Relies on `str::trim`: returns the string with leading and trailing
/// whitespace removed, a function of the characters alone.
#[verifier::external_body]
fn trim_answer(s: &str) -> (r: &str)
    ensures
        r@ == trimmed_of(s@),
{
    s.trim()
}

/// Relies on `str::to_lowercase`: returns the lowercase equivalent of the
/// string, a function of the characters alone.
#[verifier::external_body]
fn lowercase_answer(s: &str) -> (r: String)
    ensures
        r@ == lower_of(s@),
{
    s.to_lowercase()
}

/// Whether an answer grants consent to remove: exactly `"y"` once trimmed
/// and lower-cased.
pub open spec fn answer_grants(answer: Seq<char>) -> bool {
    lower_of(trimmed_of(answer)) == seq!['y']
}

/// Decide whether `answer` grants consent to remove the matched folders.
pub fn confirmation_grants(answer: &str) -> (r: bool)
    ensures
        r == answer_grants(answer@),
{
    let trimmed = trim_answer(answer);
    let lowered = lowercase_answer(trimmed);
    let yes: String = "y".to_owned();
    proof {
        reveal_strlit("y");
        assert(yes@ =~= seq!['y']);
    }
    lowered == yes
}

/// The removal queue an answer plans for a match list: the whole list when
/// the answer grants consent, nothing otherwise.
pub open spec fn removal_plan(
    matches: Seq<Seq<Seq<char>>>,
    answer: Seq<char>,
) -> Seq<Seq<Seq<char>>> {
    if answer_grants(answer) {
        matches
    } else {
        Seq::empty()
    }
}

/// Confirmation gate: an answer other than `"y"` (case-insensitive,
/// whitespace-trimmed) plans no removals, whatever was matched.
pub proof fn lemma_confirmation_gate(matches: Seq<Seq<Seq<char>>>, answer: Seq<char>)
    ensures
        !answer_grants(answer) ==> removal_plan(matches, answer) == Seq::<Seq<Seq<char>>>::empty(),
{
}

/// The queue of folders to remove, worked through in order, one attempt
/// per path whatever the outcome of the attempts before it.
pub struct Remover {
    paths: Vec<Vec<String>>,
    next: usize,
}

impl Remover {
    /// The paths queued for removal, in order.
    pub closed spec fn queued(self) -> Seq<Seq<Seq<char>>> {
        self.paths.deep_view()
    }

    /// How many paths have been attempted so far.
    pub closed spec fn position(self) -> int {
        self.next as int
    }

    /// The position never runs past the queue.
    pub closed spec fn wf(self) -> bool {
        self.next <= self.paths.len()
    }

    /// Build the removal queue for a match list from the user's answer:
    /// every matched path, in match order, when the answer grants consent;
    /// an empty queue otherwise.
    pub fn new(matches: Vec<Vec<String>>, answer: &str) -> (r: Remover)
        ensures
            r.wf(),
            r.position() == 0,
            r.queued() == removal_plan(matches.deep_view(), answer@),
    {
        if confirmation_grants(answer) {
            Remover { paths: matches, next: 0 }
        } else {
            let empty: Vec<Vec<String>> = Vec::new();
            proof {
                assert(empty.deep_view() =~= Seq::<Seq<Seq<char>>>::empty());
            }
            Remover { paths: empty, next: 0 }
        }
    }

    /// How many removals the queue holds in all.
    pub fn total(&self) -> (n: usize)
        ensures
            n == self.queued().len(),
    {
        self.paths.len()
    }

    /// The next path to attempt, or `None` once every queued path has had
    /// its attempt.
    pub fn next_target(&self) -> (r: Option<&Vec<String>>)
        requires
            self.wf(),
        ensures
            (match r {
                Some(p) => self.position() < self.queued().len()
                    && p.deep_view() == self.queued()[self.position()],
                None => self.position() == self.queued().len(),
            }),
    {
        if self.next < self.paths.len() {
            Some(&self.paths[self.next])
        } else {
            None
        }
    }

    /// Step past the path just attempted. The queue ahead is the same
    /// whether or not the removal succeeded: a failure on one folder does
    /// not hold back the folders after it.
    #[allow(unused_variables)]
    pub fn advance(&mut self, removed: bool)
        requires
            old(self).wf(),
            old(self).position() < old(self).queued().len(),
        ensures
            final(self).wf(),
            final(self).queued() == old(self).queued(),
            final(self).position() == old(self).position() + 1,
    {
        self.next = self.next + 1;
    }
}

} // verus!

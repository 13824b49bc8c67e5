//! Checking afterwards that every article can be retrieved.

use vstd::prelude::*;
use vstd::string::*;

use crate::article;
use crate::chars;
use crate::text;

use super::PostedSegment;

verus! {

/// What came of asking for an article.
#[derive(Debug, Clone, Copy, PartialEq, Eq, Structural)]
pub enum CheckReply {
    /// The server has the article.
    Found,
    /// The server does not have the article.
    NotFound,
    /// The server did not say.
    StatFailed,
    /// There was no connection.
    ConnectFailed,
}

/// What to do before the next question.
#[derive(Debug, Clone, Copy, PartialEq, Eq, Structural)]
pub struct CheckStep {
    /// Drop the connection.
    pub invalidate: bool,
    /// Seconds to wait.
    pub wait_secs: u64,
    /// The article is settled, and was found or not.
    pub settled: Option<bool>,
}

/// Strip the angle brackets off an identifier, as the question wants it.
pub fn strip_brackets(message_id: &str) -> (id: String)
    ensures
        id@ == article::bare_id(message_id@),
{
    let all: Vec<char> = text::chars_of(message_id);
    text::string_of(chars::strip_end(chars::strip_start(all.as_slice(), '<'), '>'))
}

/// The check of a run: which article is asked for, at which attempt, and which
/// ones are missing so far.
pub struct ArticleCheck {
    ids: Vec<String>,
    index: usize,
    attempt: u32,
    max_attempts: u32,
    missing: Vec<String>,
}

/// What is known of a check.
pub struct CheckState {
    /// The identifiers of all articles.
    pub ids: Seq<Seq<char>>,
    /// Articles settled.
    pub index: nat,
    /// The attempt on the next article, from 1 on.
    pub attempt: nat,
    pub max_attempts: nat,
    pub missing: Seq<Seq<char>>,
}

impl CheckState {
    /// Before the first question. There is at least one attempt per article.
    pub open spec fn start(ids: Seq<Seq<char>>, retries: nat) -> CheckState {
        CheckState {
            ids,
            index: 0,
            attempt: 1,
            max_attempts: if retries == 0 {
                1
            } else {
                retries
            },
            missing: Seq::empty(),
        }
    }

    /// There is an article to ask for.
    pub open spec fn is_open(self) -> bool {
        self.index < self.ids.len()
    }

    /// After an answer: an article is settled when it is found, or missing when
    /// its last attempt fails.
    pub open spec fn after(self, reply: CheckReply) -> CheckState {
        if reply == CheckReply::Found {
            CheckState { index: self.index + 1, attempt: 1, ..self }
        } else if self.attempt < self.max_attempts {
            CheckState { attempt: self.attempt + 1, ..self }
        } else {
            CheckState {
                index: self.index + 1,
                attempt: 1,
                missing: self.missing.push(self.ids[self.index as int]),
                ..self
            }
        }
    }

    /// After several answers; those that come after the end do not count.
    pub open spec fn after_all(self, replies: Seq<CheckReply>) -> CheckState
        decreases replies.len(),
    {
        if replies.len() == 0 {
            self
        } else {
            let before = self.after_all(replies.drop_last());
            if before.is_open() {
                before.after(replies.last())
            } else {
                before
            }
        }
    }
}

/// The step that follows an answer.
pub open spec fn step_after(s: CheckState, reply: CheckReply) -> CheckStep {
    let again = reply != CheckReply::Found && s.attempt < s.max_attempts;
    CheckStep {
        invalidate: reply == CheckReply::StatFailed,
        wait_secs: if !again {
            0
        } else if reply == CheckReply::NotFound {
            5
        } else {
            2
        },
        settled: if again {
            None
        } else {
            Some(reply == CheckReply::Found)
        },
    }
}

impl View for ArticleCheck {
    type V = CheckState;

    closed spec fn view(&self) -> CheckState {
        CheckState {
            ids: text::texts(self.ids@),
            index: self.index as nat,
            attempt: self.attempt as nat,
            max_attempts: self.max_attempts as nat,
            missing: text::texts(self.missing@),
        }
    }
}

impl ArticleCheck {
    /// Start the check of some segments, with `retries` attempts for each, but
    /// at least one.
    pub fn start(segments: &[PostedSegment], retries: u32) -> (check: ArticleCheck)
        ensures
            check@ == CheckState::start(
                Seq::new(segments@.len(), |i: int| segments@[i].message_id@),
                retries as nat,
            ),
    {
        let n: usize = segments.len();
        let mut ids: Vec<String> = Vec::new();
        let mut i: usize = 0;
        while i < n
            invariant
                i <= n,
                n == segments@.len(),
                ids@.len() == i,
                forall|k: int| 0 <= k < i ==> (#[trigger] ids@[k])@ == segments@[k].message_id@,
            decreases n - i,
        {
            ids.push(segments[i].message_id.clone());
            i = i + 1;
        }
        let check: ArticleCheck = ArticleCheck {
            ids,
            index: 0,
            attempt: 1,
            max_attempts: if retries == 0 {
                1
            } else {
                retries
            },
            missing: Vec::new(),
        };
        proof {
            assert(check@.ids =~= Seq::new(segments@.len(), |i: int| segments@[i].message_id@));
            assert(check@.missing =~= Seq::empty());
        }
        check
    }

    /// The identifier to ask for next, without its angle brackets; none when
    /// every article is settled.
    pub fn next_id(&self) -> (id: Option<String>)
        ensures
            match id {
                Some(s) => self@.is_open() && s@ == article::bare_id(self@.ids[self@.index as int]),
                None => !self@.is_open(),
            },
            id is Some <==> question_of(self@) is Some,
            id matches Some(s) ==> question_of(self@) == Some(s@),
    {
        if self.index < self.ids.len() {
            Some(strip_brackets(self.ids[self.index].as_str()))
        } else {
            None
        }
    }

    /// Take the answer to the question.
    pub fn advance(&mut self, reply: CheckReply) -> (step: CheckStep)
        requires
            old(self)@.is_open(),
        ensures
            final(self)@ == old(self)@.after(reply),
            step == step_after(old(self)@, reply),
    {
        let ghost before = self@;
        let _articles: usize = self.ids.len();
        let found: bool = reply == CheckReply::Found;
        let again: bool = !found && self.attempt < self.max_attempts;
        if again {
            self.attempt = self.attempt + 1;
        } else {
            if !found {
                let id: String = self.ids[self.index].clone();
                self.missing.push(id);
                assert(text::texts(self.missing@) =~= before.missing.push(
                    before.ids[before.index as int],
                ));
            }
            self.index = self.index + 1;
            self.attempt = 1;
        }
        CheckStep {
            invalidate: reply == CheckReply::StatFailed,
            wait_secs: if !again {
                0
            } else if reply == CheckReply::NotFound {
                5
            } else {
                2
            },
            settled: if again {
                None
            } else {
                Some(found)
            },
        }
    }

    /// The identifiers of the articles that could not be confirmed.
    pub fn into_missing(self) -> (missing: Vec<String>)
        ensures
            text::texts(missing@) == self@.missing,
    {
        self.missing
    }
}

/// Some of the identifiers, in their order.
pub open spec fn is_selection(some: Seq<Seq<char>>, ids: Seq<Seq<char>>) -> bool
    decreases ids.len(),
{
    if some.len() == 0 {
        true
    } else if ids.len() == 0 {
        false
    } else if some.last() == ids.last() && is_selection(some.drop_last(), ids.drop_last()) {
        true
    } else {
        is_selection(some, ids.drop_last())
    }
}

/// The missing articles are articles of the run, in the run's order; every
/// article takes at least one and at most the allowed number of questions; and
/// a run whose every answer is positive misses none.
pub proof fn law_check_settles_every_article(
    ids: Seq<Seq<char>>,
    retries: nat,
    replies: Seq<CheckReply>,
)
    ensures
        ({
            let end = CheckState::start(ids, retries).after_all(replies);
            &&& is_selection(end.missing, ids.take(end.index as int))
            &&& end.index <= ids.len()
            &&& 1 <= end.attempt <= end.max_attempts
            &&& end.is_open() ==> replies.len() <= end.index * end.max_attempts + end.attempt - 1
            &&& end.missing.len() <= end.index
            &&& (forall|i: int|
                0 <= i < replies.len() ==> #[trigger] replies[i] == CheckReply::Found)
                ==> end.missing.len() == 0
        }),
    decreases replies.len(),
{
    let start = CheckState::start(ids, retries);
    let end = start.after_all(replies);
    if replies.len() > 0 {
        let rest = replies.drop_last();
        law_check_settles_every_article(ids, retries, rest);
        let before = start.after_all(rest);
        lemma_check_keeps(ids, retries, rest);
        if before.is_open() {
            let settled = ids.take(before.index as int);
            let more = ids.take((before.index + 1) as int);
            assert(more.drop_last() =~= settled);
            assert(more.last() == ids[before.index as int]);
            assert((before.index + 1) * before.max_attempts == before.index * before.max_attempts
                + before.max_attempts) by (nonlinear_arith);
            if end.missing.len() > before.missing.len() {
                assert(end.missing.drop_last() =~= before.missing);
            } else {
                assert(end.missing == before.missing);
            }
        }
        assert((forall|i: int|
            0 <= i < replies.len() ==> #[trigger] replies[i] == CheckReply::Found) ==> (forall|
            i: int,
        |
            0 <= i < rest.len() ==> #[trigger] rest[i] == CheckReply::Found)) by {
            if forall|i: int|
                0 <= i < replies.len() ==> #[trigger] replies[i] == CheckReply::Found {
                assert forall|i: int| 0 <= i < rest.len() implies #[trigger] rest[i]
                    == CheckReply::Found by {
                    assert(rest[i] == replies[i]);
                }
                assert(replies[replies.len() - 1] == CheckReply::Found);
            }
        }
    }
}

/// The answers that were given to the questions for article `i`, in their order.
pub open spec fn answers_to(
    ids: Seq<Seq<char>>,
    retries: nat,
    replies: Seq<CheckReply>,
    i: nat,
) -> Seq<CheckReply>
    decreases replies.len(),
{
    if replies.len() == 0 {
        Seq::empty()
    } else {
        let earlier = answers_to(ids, retries, replies.drop_last(), i);
        let before = CheckState::start(ids, retries).after_all(replies.drop_last());
        if before.is_open() && before.index == i {
            earlier.push(replies.last())
        } else {
            earlier
        }
    }
}

/// None of the answers says that the article is there.
pub open spec fn none_found(answers: Seq<CheckReply>) -> bool {
    forall|j: int| 0 <= j < answers.len() ==> #[trigger] answers[j] != CheckReply::Found
}

/// The answers settle an article: only the last one may say that it is there, and
/// if it does not, there are as many as there may be.
pub open spec fn settles(answers: Seq<CheckReply>, max_attempts: nat) -> bool {
    &&& 1 <= answers.len() <= max_attempts
    &&& none_found(answers.drop_last())
    &&& answers.last() == CheckReply::Found || answers.len() == max_attempts
}

/// Those of the first `n` articles whose every answer said that they are not
/// there.
pub open spec fn never_found(
    ids: Seq<Seq<char>>,
    retries: nat,
    replies: Seq<CheckReply>,
    n: nat,
) -> Seq<Seq<char>>
    decreases n,
{
    if n == 0 {
        Seq::empty()
    } else {
        let earlier = never_found(ids, retries, replies, (n - 1) as nat);
        if none_found(answers_to(ids, retries, replies, (n - 1) as nat)) {
            earlier.push(ids[n - 1])
        } else {
            earlier
        }
    }
}

proof fn lemma_never_found_stays(
    ids: Seq<Seq<char>>,
    retries: nat,
    a: Seq<CheckReply>,
    b: Seq<CheckReply>,
    n: nat,
)
    requires
        forall|i: nat|
            i < n ==> #[trigger] answers_to(ids, retries, a, i) == answers_to(ids, retries, b, i),
    ensures
        never_found(ids, retries, a, n) == never_found(ids, retries, b, n),
    decreases n,
{
    if n > 0 {
        lemma_never_found_stays(ids, retries, a, b, (n - 1) as nat);
        assert(answers_to(ids, retries, a, (n - 1) as nat) == answers_to(
            ids,
            retries,
            b,
            (n - 1) as nat,
        ));
    }
}

/// Every article is judged by its own answers alone, and has all its attempts to
/// itself: it is asked for until an answer says that it is there, or until there
/// are as many answers as allowed, at least one. The missing articles are those
/// of which no answer said that they are there. The next article to ask for has
/// had one answer fewer than the number of its attempt, none of them positive, and
/// the articles behind it none.
pub proof fn law_articles_are_judged_by_their_own_answers(
    ids: Seq<Seq<char>>,
    retries: nat,
    replies: Seq<CheckReply>,
)
    ensures
        ({
            let end = CheckState::start(ids, retries).after_all(replies);
            let allowed = if retries == 0 {
                1
            } else {
                retries
            };
            &&& end.index <= ids.len()
            &&& forall|i: nat|
                i < end.index ==> settles(#[trigger] answers_to(ids, retries, replies, i), allowed)
            &&& forall|i: nat|
                i > end.index ==> (#[trigger] answers_to(ids, retries, replies, i)).len() == 0
            &&& answers_to(ids, retries, replies, end.index).len() == end.attempt - 1
            &&& end.attempt <= allowed
            &&& none_found(answers_to(ids, retries, replies, end.index))
            &&& end.missing == never_found(ids, retries, replies, end.index)
        }),
    decreases replies.len(),
{
    let start = CheckState::start(ids, retries);
    let end = start.after_all(replies);
    let allowed = if retries == 0 {
        1
    } else {
        retries
    };
    if replies.len() > 0 {
        let rest = replies.drop_last();
        let before = start.after_all(rest);
        law_articles_are_judged_by_their_own_answers(ids, retries, rest);
        lemma_check_keeps(ids, retries, rest);
        let i = before.index;
        let earlier = answers_to(ids, retries, rest, i);
        let now = answers_to(ids, retries, replies, i);
        assert forall|k: nat| k != i implies #[trigger] answers_to(ids, retries, replies, k)
            == answers_to(ids, retries, rest, k) by {}
        lemma_never_found_stays(ids, retries, rest, replies, i);
        if before.is_open() {
            assert(now == earlier.push(replies.last()));
            assert(now.drop_last() =~= earlier);
            assert(now[now.len() - 1] == replies.last());
            if replies.last() != CheckReply::Found {
                assert forall|j: int| 0 <= j < now.len() implies #[trigger] now[j]
                    != CheckReply::Found by {
                    if j < earlier.len() {
                        assert(now[j] == earlier[j]);
                    }
                }
            }
            if end.index > i {
                assert(end.index == i + 1);
                assert(settles(now, allowed));
                assert(answers_to(ids, retries, replies, end.index) == answers_to(
                    ids,
                    retries,
                    rest,
                    end.index,
                ));
            }
        } else {
            assert(now == earlier);
        }
    }
}

/// The article that is asked for next.
pub open spec fn question_of(s: CheckState) -> Option<Seq<char>> {
    if s.is_open() {
        Some(article::bare_id(s.ids[s.index as int]))
    } else {
        None
    }
}

/// When every article is there, each is asked for once, in order, without its angle
/// brackets.
pub proof fn law_articles_are_asked_for_in_order(ids: Seq<Seq<char>>, retries: nat, k: nat)
    requires
        k <= ids.len(),
    ensures
        ({
            let s = CheckState::start(ids, retries).after_all(
                Seq::new(k, |i: int| CheckReply::Found),
            );
            &&& question_of(s) == if k < ids.len() {
                Some(article::bare_id(ids[k as int]))
            } else {
                None
            }
            &&& s.missing.len() == 0
            &&& s.index == k
            &&& s.ids == ids
        }),
    decreases k,
{
    if k > 0 {
        law_articles_are_asked_for_in_order(ids, retries, (k - 1) as nat);
        let all = Seq::new(k, |i: int| CheckReply::Found);
        assert(all.drop_last() =~= Seq::new((k - 1) as nat, |i: int| CheckReply::Found));
    }
}

/// What is done after an answer: the article is settled, or it is asked for once
/// more, and only then is there a wait.
pub proof fn law_steps_follow_the_articles(s: CheckState, reply: CheckReply)
    requires
        s.is_open(),
    ensures
        step_after(s, reply).settled is None <==> s.after(reply).index == s.index,
        step_after(s, reply).settled is None <==> step_after(s, reply).wait_secs > 0,
        step_after(s, reply).settled == Some(true) <==> reply == CheckReply::Found,
        step_after(s, reply).settled == Some(false) <==> s.after(reply).missing == s.missing.push(
            s.ids[s.index as int],
        ),
        step_after(s, reply).settled is None ==> step_after(s, reply).wait_secs == (if reply
            == CheckReply::NotFound {
            5u64
        } else {
            2u64
        }),
        step_after(s, reply).invalidate <==> reply == CheckReply::StatFailed,
{
    assert(s.missing.push(s.ids[s.index as int]).len() != s.missing.len());
}

proof fn lemma_check_keeps(ids: Seq<Seq<char>>, retries: nat, replies: Seq<CheckReply>)
    ensures
        CheckState::start(ids, retries).after_all(replies).ids == ids,
        CheckState::start(ids, retries).after_all(replies).max_attempts == CheckState::start(
            ids,
            retries,
        ).max_attempts,
    decreases replies.len(),
{
    if replies.len() > 0 {
        lemma_check_keeps(ids, retries, replies.drop_last());
    }
}

} // verus!

//! The topic wildcard matcher: decides whether a published topic falls under
//! a subscription filter whose levels may be `+` (exactly one level) or `#`
//! (the whole remainder, allowed only as the final level).

use vstd::prelude::*;
use crate::text::{char_vecs_equal, chars_of, split_chars, split_on, views_of};

verus! {

/// The levels of a topic or filter: the string split on `/`.
pub open spec fn split_levels(s: Seq<char>) -> Seq<Seq<char>> {
    split_on(s, '/')
}

/// Whether the topic levels fall under the filter levels: a literal level
/// must be equal, `+` consumes exactly one topic level, and `#` as the last
/// filter level covers any remainder, including none.  A `#` that is not the
/// final level makes the filter malformed, and nothing matches it.
pub open spec fn levels_match(topic: Seq<Seq<char>>, filter: Seq<Seq<char>>) -> bool
    decreases filter.len(),
{
    if filter.len() == 0 {
        topic.len() == 0
    } else if filter[0] == seq!['#'] {
        filter.len() == 1
    } else if filter[0] == seq!['+'] {
        topic.len() > 0 && levels_match(topic.skip(1), filter.skip(1))
    } else {
        topic.len() > 0 && topic[0] == filter[0] && levels_match(topic.skip(1), filter.skip(1))
    }
}

/// Whether the published topic falls under the subscription filter.
pub open spec fn topic_matches(topic: Seq<char>, filter: Seq<char>) -> bool {
    levels_match(split_levels(topic), split_levels(filter))
}

/// The matcher is pure: it depends on nothing but the two character
/// sequences, so equal inputs always give equal answers.
pub proof fn lemma_topic_matches_pure(
    topic_a: Seq<char>,
    filter_a: Seq<char>,
    topic_b: Seq<char>,
    filter_b: Seq<char>,
)
    requires
        topic_a == topic_b,
        filter_a == filter_b,
    ensures
        topic_matches(topic_a, filter_a) == topic_matches(topic_b, filter_b),
{
}

/// Whether the topic levels from `ti` on fall under the filter levels from
/// `fi` on.
fn levels_match_exec(
    topic: &Vec<Vec<char>>,
    filter: &Vec<Vec<char>>,
    ti: usize,
    fi: usize,
) -> (matches: bool)
    requires
        ti <= topic@.len(),
        fi <= filter@.len(),
    ensures
        matches == levels_match(
            views_of(topic@).skip(ti as int),
            views_of(filter@).skip(fi as int),
        ),
    decreases filter@.len() - fi,
{
    proof {
        if fi < filter@.len() {
            assert(views_of(filter@).skip(fi as int)[0] == filter@[fi as int]@);
            assert(views_of(filter@).skip(fi as int).skip(1) =~= views_of(filter@).skip(
                fi as int + 1,
            ));
        }
        if ti < topic@.len() {
            assert(views_of(topic@).skip(ti as int)[0] == topic@[ti as int]@);
            assert(views_of(topic@).skip(ti as int).skip(1) =~= views_of(topic@).skip(
                ti as int + 1,
            ));
        }
    }
    if fi == filter.len() {
        return ti == topic.len();
    }
    let head = &filter[fi];
    if head.len() == 1 && head[0] == '#' {
        proof {
            assert(head@ =~= seq!['#']);
        }
        return fi + 1 == filter.len();
    }
    proof {
        assert(head@ != seq!['#']);
    }
    if ti == topic.len() {
        return false;
    }
    if head.len() == 1 && head[0] == '+' {
        proof {
            assert(head@ =~= seq!['+']);
        }
        return levels_match_exec(topic, filter, ti + 1, fi + 1);
    }
    proof {
        assert(head@ != seq!['+']);
    }
    if !char_vecs_equal(&topic[ti], head) {
        return false;
    }
    levels_match_exec(topic, filter, ti + 1, fi + 1)
}

/// Whether `topic_publish` falls under the subscription filter
/// `topic_subscribed`.
pub fn compare_topic(topic_publish: &str, topic_subscribed: &str) -> (matches: bool)
    ensures
        matches == topic_matches(topic_publish@, topic_subscribed@),
{
    let topic_chars = chars_of(topic_publish);
    let filter_chars = chars_of(topic_subscribed);
    let topic_levels = split_chars(&topic_chars, '/');
    let filter_levels = split_chars(&filter_chars, '/');
    proof {
        assert(views_of(topic_levels@).skip(0) =~= views_of(topic_levels@));
        assert(views_of(filter_levels@).skip(0) =~= views_of(filter_levels@));
    }
    levels_match_exec(&topic_levels, &filter_levels, 0, 0)
}

} // verus!

//! The order of the table of contents.
//!
//! Topics with a browse sequence come first, in the order of the help file.
//! Topics without one follow, alphabetically by title.

use vstd::prelude::*;

use crate::model::{Topic, TopicView};
use crate::order::{comes_before, law_irreflexive, law_total, law_transitive, text_before};
use crate::views::{lemma_views_push, views};

verus! {

/// The topics that have a browse sequence, or those that have none, in order.
pub open spec fn with_browse_sequence(topics: Seq<TopicView>, has_one: bool) -> Seq<TopicView>
    decreases topics.len(),
{
    if topics.len() == 0 {
        Seq::empty()
    } else if topics.last().browse_seq is Some == has_one {
        with_browse_sequence(topics.drop_last(), has_one).push(topics.last())
    } else {
        with_browse_sequence(topics.drop_last(), has_one)
    }
}

/// The place of a new topic with the given title: behind all topics whose
/// titles it does not come before.
pub open spec fn place_of(s: Seq<TopicView>, title: Seq<char>) -> int
    decreases s.len(),
{
    if s.len() == 0 || !text_before(title, s.last().title) {
        s.len() as int
    } else {
        place_of(s.drop_last(), title)
    }
}

/// The topics alphabetically by title; topics with one title keep their order.
pub open spec fn by_title(s: Seq<TopicView>) -> Seq<TopicView>
    decreases s.len(),
{
    if s.len() == 0 {
        s
    } else {
        let before = by_title(s.drop_last());
        before.insert(place_of(before, s.last().title), s.last())
    }
}

/// The topics in the order of the table of contents.
pub open spec fn contents_order(topics: Seq<TopicView>) -> Seq<TopicView> {
    with_browse_sequence(topics, true) + by_title(with_browse_sequence(topics, false))
}

// ---------------------------------------------------------------------------
// Laws
// ---------------------------------------------------------------------------

/// Whether no title comes before one that stands in front of it.
pub open spec fn alphabetical(s: Seq<TopicView>) -> bool {
    forall|i: int, j: int|
        0 <= i < j < s.len() ==> !text_before((#[trigger] s[j]).title, (#[trigger] s[i]).title)
}

proof fn lemma_place(s: Seq<TopicView>, title: Seq<char>)
    requires
        alphabetical(s),
    ensures
        0 <= place_of(s, title) <= s.len(),
        forall|i: int|
            0 <= i < place_of(s, title) ==> !text_before(title, (#[trigger] s[i]).title),
        forall|i: int|
            place_of(s, title) <= i < s.len() ==> text_before(title, (#[trigger] s[i]).title),
    decreases s.len(),
{
    if s.len() > 0 {
        let last = s[s.len() - 1].title;
        if text_before(title, last) {
            let shorter = s.drop_last();
            assert(alphabetical(shorter)) by {
                assert forall|i: int, j: int| 0 <= i < j < shorter.len() implies !text_before(
                    (#[trigger] shorter[j]).title,
                    (#[trigger] shorter[i]).title,
                ) by {
                    assert(!text_before(s[j].title, s[i].title));
                }
            }
            lemma_place(shorter, title);
            assert forall|i: int| 0 <= i < shorter.len() implies #[trigger] s[i] == shorter[i] by {}
        } else {
            assert forall|i: int| 0 <= i < s.len() implies !text_before(
                title,
                (#[trigger] s[i]).title,
            ) by {
                if i < s.len() - 1 && text_before(title, s[i].title) {
                    assert(!text_before(last, s[i].title));
                    law_total(last, s[i].title);
                    if last != s[i].title {
                        law_transitive(title, s[i].title, last);
                    }
                }
            }
        }
    }
}

proof fn lemma_by_title(s: Seq<TopicView>)
    ensures
        alphabetical(by_title(s)),
        by_title(s).to_multiset() == s.to_multiset(),
    decreases s.len(),
{
    broadcast use vstd::seq_lib::group_to_multiset_ensures;

    if s.len() > 0 {
        lemma_by_title(s.drop_last());
        let before = by_title(s.drop_last());
        let new = s.last();
        let at = place_of(before, new.title);
        lemma_place(before, new.title);
        let after = before.insert(at, new);
        assert forall|i: int, j: int| 0 <= i < j < after.len() implies !text_before(
            (#[trigger] after[j]).title,
            (#[trigger] after[i]).title,
        ) by {
            let a = if i < at {
                i
            } else {
                i - 1
            };
            let b = if j < at {
                j
            } else {
                j - 1
            };
            if i != at {
                assert(after[i] == before[a]);
            }
            if j != at {
                assert(after[j] == before[b]);
            }
            if i == at && text_before(after[j].title, new.title) {
                law_transitive(new.title, after[j].title, new.title);
                law_irreflexive(new.title);
            }
        }
        vstd::seq_lib::to_multiset_insert(before, at, new);
        assert(s =~= s.drop_last().push(new));
    }
}

proof fn lemma_parts(topics: Seq<TopicView>, has_one: bool)
    ensures
        forall|i: int|
            0 <= i < with_browse_sequence(topics, has_one).len() ==> (
            #[trigger] with_browse_sequence(topics, has_one)[i]).browse_seq is Some == has_one,
        with_browse_sequence(topics, true).to_multiset().add(
            with_browse_sequence(topics, false).to_multiset(),
        ) == topics.to_multiset(),
    decreases topics.len(),
{
    broadcast use vstd::seq_lib::group_to_multiset_ensures;

    if topics.len() > 0 {
        let shorter = topics.drop_last();
        lemma_parts(shorter, has_one);
        let new = topics.last();
        assert(topics =~= shorter.push(new));
        let yes = with_browse_sequence(shorter, true).to_multiset();
        let no = with_browse_sequence(shorter, false).to_multiset();
        assert(yes.insert(new).add(no) =~= yes.add(no).insert(new));
        assert(yes.add(no.insert(new)) =~= yes.add(no).insert(new));
        let before = with_browse_sequence(shorter, has_one);
        let after = with_browse_sequence(topics, has_one);
        assert forall|i: int| 0 <= i < after.len() implies (#[trigger] after[i]).browse_seq is Some
            == has_one by {
            if i < before.len() {
                assert(before[i].browse_seq is Some == has_one);
            }
        }
    }
}

/// The two parts of the contents are picked out of the topics in order.
pub proof fn law_parts_keep_the_order(topics: Seq<TopicView>)
    ensures
        with_browse_sequence(topics, true) == topics.filter(|t: TopicView| t.browse_seq is Some),
        with_browse_sequence(topics, false) == topics.filter(|t: TopicView| t.browse_seq is None),
    decreases topics.len(),
{
    reveal(Seq::filter);
    if topics.len() > 0 {
        law_parts_keep_the_order(topics.drop_last());
    }
}

/// The topics with one title, in order.
pub open spec fn with_title(s: Seq<TopicView>, title: Seq<char>) -> Seq<TopicView>
    decreases s.len(),
{
    if s.len() == 0 {
        s
    } else if s.last().title == title {
        with_title(s.drop_last(), title).push(s.last())
    } else {
        with_title(s.drop_last(), title)
    }
}

proof fn lemma_with_title_concat(a: Seq<TopicView>, b: Seq<TopicView>, title: Seq<char>)
    ensures
        with_title(a + b, title) == with_title(a, title) + with_title(b, title),
    decreases b.len(),
{
    if b.len() == 0 {
        assert(a + b =~= a);
        assert(with_title(a, title) + with_title(b, title) =~= with_title(a, title));
    } else {
        assert((a + b).drop_last() =~= a + b.drop_last());
        lemma_with_title_concat(a, b.drop_last(), title);
        assert(with_title(a + b, title) =~= with_title(a, title) + with_title(b, title));
    }
}

proof fn lemma_with_title_none(s: Seq<TopicView>, title: Seq<char>)
    requires
        forall|i: int| 0 <= i < s.len() ==> (#[trigger] s[i]).title != title,
    ensures
        with_title(s, title) == Seq::<TopicView>::empty(),
    decreases s.len(),
{
    if s.len() > 0 {
        assert(s[s.len() - 1].title != title);
        let shorter = s.drop_last();
        assert forall|i: int| 0 <= i < shorter.len() implies (#[trigger] shorter[i]).title
            != title by {
            assert(s[i].title != title);
        }
        lemma_with_title_none(shorter, title);
    }
}

/// Topics with one title keep their order.
pub proof fn law_one_title_keeps_the_order(s: Seq<TopicView>, title: Seq<char>)
    ensures
        with_title(by_title(s), title) == with_title(s, title),
    decreases s.len(),
{
    if s.len() > 0 {
        law_one_title_keeps_the_order(s.drop_last(), title);
        lemma_by_title(s.drop_last());
        let before = by_title(s.drop_last());
        let new = s.last();
        let at = place_of(before, new.title);
        lemma_place(before, new.title);
        let front = before.take(at);
        let back = before.skip(at);
        assert(before =~= front + back);
        assert(before.insert(at, new) =~= front.push(new) + back);
        lemma_with_title_concat(front, back, title);
        lemma_with_title_concat(front.push(new), back, title);
        assert(front.push(new).drop_last() =~= front);
        if new.title == title {
            assert forall|i: int| 0 <= i < back.len() implies (#[trigger] back[i]).title
                != title by {
                assert(text_before(new.title, before[at + i].title));
                law_irreflexive(new.title);
            }
            lemma_with_title_none(back, title);
            assert(with_title(front, title) + Seq::<TopicView>::empty() =~= with_title(
                front,
                title,
            ));
            assert(with_title(front, title).push(new) + Seq::<TopicView>::empty() =~= with_title(
                front,
                title,
            ).push(new));
        }
    }
}

/// The table of contents lists every topic once. It opens with the topics that
/// have a browse sequence, in the order of the help file; the others follow,
/// alphabetically by title.
pub proof fn law_contents_are_in_browse_order(topics: Seq<TopicView>)
    ensures
        contents_order(topics).to_multiset() == topics.to_multiset(),
        ({
            let n = with_browse_sequence(topics, true).len() as int;
            let contents = contents_order(topics);
            &&& n <= contents.len()
            &&& contents.take(n) == with_browse_sequence(topics, true)
            &&& forall|i: int| 0 <= i < n ==> (#[trigger] contents[i]).browse_seq is Some
            &&& forall|i: int| n <= i < contents.len() ==> (#[trigger] contents[i]).browse_seq is None
            &&& alphabetical(contents.skip(n))
        }),
{
    broadcast use vstd::seq_lib::group_to_multiset_ensures;

    let listed = with_browse_sequence(topics, true);
    let unlisted = with_browse_sequence(topics, false);
    let rest = by_title(unlisted);
    let contents = contents_order(topics);
    lemma_parts(topics, true);
    lemma_parts(topics, false);
    lemma_by_title(unlisted);
    vstd::seq_lib::lemma_multiset_commutative(listed, rest);
    let n = listed.len() as int;
    assert(contents.take(n) =~= listed);
    assert(contents.skip(n) =~= rest);
    assert forall|i: int| n <= i < contents.len() implies (
    #[trigger] contents[i]).browse_seq is None by {
        let topic = rest[i - n];
        assert(contents[i] == topic);
        assert(rest.contains(topic));
        assert(rest.to_multiset().contains(topic));
        assert(unlisted.to_multiset().contains(topic));
        assert(unlisted.contains(topic));
        let k = choose|k: int| 0 <= k < unlisted.len() && unlisted[k] == topic;
        assert(unlisted[k].browse_seq is Some == false);
    }
}

// ---------------------------------------------------------------------------
// Ordering
// ---------------------------------------------------------------------------

/// Enters a topic behind all topics whose titles it does not come before.
fn enter_by_title<'a>(sorted: &mut Vec<&'a Topic>, topic: &'a Topic)
    ensures
        views(final(sorted)@) == views(old(sorted)@).insert(
            place_of(views(old(sorted)@), topic@.title),
            topic@,
        ),
{
    let ghost before = views(sorted@);
    let mut at: usize = sorted.len();
    assert(before.take(at as int) =~= before);
    while at > 0 && comes_before(topic.title.as_str(), sorted[at - 1].title.as_str())
        invariant
            at <= sorted@.len(),
            before == views(sorted@),
            place_of(before.take(at as int), topic@.title) == place_of(before, topic@.title),
        decreases at,
    {
        assert(before.take(at as int).drop_last() =~= before.take(at - 1));
        assert(before.take(at as int).last() == sorted@[at - 1]@);
        at -= 1;
    }
    proof {
        let front = before.take(at as int);
        assert(front.len() > 0 ==> front.last() == sorted@[at - 1]@);
        assert(at == place_of(before, topic@.title));
        assert(views(sorted@.insert(at as int, topic)) =~= before.insert(at as int, topic@));
    }
    sorted.insert(at, topic);
}

/// Puts the topics into the order of the table of contents.
pub fn order_contents(topics: &Vec<Topic>) -> (contents: Vec<&Topic>)
    ensures
        views(contents@) == contents_order(views(topics@)),
{
    let ghost all = views(topics@);
    let mut listed: Vec<&Topic> = Vec::new();
    let mut rest: Vec<&Topic> = Vec::new();
    let mut i: usize = 0;
    assert(views(listed@) =~= with_browse_sequence(all.take(0), true));
    assert(views(rest@) =~= by_title(with_browse_sequence(all.take(0), false)));
    while i < topics.len()
        invariant
            i <= topics@.len(),
            all == views(topics@),
            views(listed@) == with_browse_sequence(all.take(i as int), true),
            views(rest@) == by_title(with_browse_sequence(all.take(i as int), false)),
        decreases topics@.len() - i,
    {
        let topic: &Topic = &topics[i];
        proof {
            assert(all.take(i + 1).drop_last() =~= all.take(i as int));
            assert(all.take(i + 1).last() == topic@);
        }
        if topic.browse_seq.is_some() {
            proof {
                lemma_views_push(listed@, topic);
            }
            listed.push(topic);
        } else {
            proof {
                let unlisted = with_browse_sequence(all.take(i as int), false);
                assert(unlisted.push(topic@).drop_last() =~= unlisted);
            }
            enter_by_title(&mut rest, topic);
        }
        i += 1;
    }
    assert(all.take(i as int) =~= all);
    proof {
        assert(views(listed@ + rest@) =~= views(listed@) + views(rest@));
    }
    listed.append(&mut rest);
    listed
}

} // verus!

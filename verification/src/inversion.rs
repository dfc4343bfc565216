//! The keyword index that the keywords of the topics make up.

use vstd::prelude::*;

use crate::model::{KeywordEntry, KeywordEntryView, Topic, TopicView};
use crate::order::{comes_before, law_irreflexive, law_total, law_transitive, text_before};
use crate::views::{lemma_views_push, views};

verus! {

/// The place of a keyword from `from` on: the first entry whose keyword does
/// not come before it.
pub open spec fn place_from(index: Seq<KeywordEntryView>, keyword: Seq<char>, from: int) -> int
    decreases index.len() - from,
{
    if 0 <= from < index.len() && text_before(index[from].keyword, keyword) {
        place_from(index, keyword, from + 1)
    } else {
        from
    }
}

/// The index with one more topic for a keyword: added to the entry of that
/// keyword, or as a new entry at its place.
pub open spec fn with_use(index: Seq<KeywordEntryView>, keyword: Seq<char>, id: Seq<char>) -> Seq<
    KeywordEntryView,
> {
    let at = place_from(index, keyword, 0);
    if at < index.len() && index[at].keyword == keyword {
        index.update(
            at,
            KeywordEntryView { keyword, topic_ids: index[at].topic_ids.push(id) },
        )
    } else {
        index.insert(at, KeywordEntryView { keyword, topic_ids: seq![id] })
    }
}

/// The index with one more topic for each of the keywords, in order.
pub open spec fn with_uses(
    index: Seq<KeywordEntryView>,
    keywords: Seq<Seq<char>>,
    id: Seq<char>,
) -> Seq<KeywordEntryView>
    decreases keywords.len(),
{
    if keywords.len() == 0 {
        index
    } else {
        with_use(with_uses(index, keywords.drop_last(), id), keywords.last(), id)
    }
}

/// The keyword index of the topics.
pub open spec fn inverted(topics: Seq<TopicView>) -> Seq<KeywordEntryView>
    decreases topics.len(),
{
    if topics.len() == 0 {
        Seq::empty()
    } else {
        with_uses(inverted(topics.drop_last()), topics.last().keywords, topics.last().id)
    }
}

/// Enters one more topic for a keyword.
fn enter(index: &mut Vec<KeywordEntry>, keyword: &String, id: &String)
    ensures
        views(final(index)@) == with_use(views(old(index)@), keyword@, id@),
{
    let ghost before = views(index@);
    let mut at: usize = 0;
    while at < index.len() && comes_before(index[at].keyword.as_str(), keyword.as_str())
        invariant
            at <= index@.len(),
            before == views(index@),
            index@ == old(index)@,
            place_from(before, keyword@, at as int) == place_from(before, keyword@, 0),
        decreases index@.len() - at,
    {
        at += 1;
    }
    if at < index.len() && index[at].keyword == *keyword {
        let entry: KeywordEntry = index.remove(at);
        let mut ids: Vec<String> = entry.topic_ids;
        proof {
            lemma_views_push(ids@, *id);
        }
        ids.push(id.clone());
        let entry = KeywordEntry { keyword: entry.keyword, topic_ids: ids };
        let ghost updated = entry@;
        index.insert(at, entry);
        assert(views(index@) =~= before.update(at as int, updated));
    } else {
        let mut ids: Vec<String> = Vec::new();
        ids.push(id.clone());
        assert(views(ids@) =~= seq![id@]);
        let entry = KeywordEntry { keyword: keyword.clone(), topic_ids: ids };
        let ghost added = entry@;
        index.insert(at, entry);
        assert(views(index@) =~= before.insert(at as int, added));
    }
}

/// Builds the keyword index of the topics: for every keyword the context
/// strings of the topics that have it, in the order of the topics. The
/// keywords come out in alphabetical order.
pub fn build_keyword_index(topics: &[Topic]) -> (index: Vec<KeywordEntry>)
    ensures
        views(index@) == inverted(views(topics@)),
{
    let mut index: Vec<KeywordEntry> = Vec::new();
    let mut i: usize = 0;
    let ghost all = views(topics@);
    assert(views(index@) =~= inverted(all.take(0)));
    while i < topics.len()
        invariant
            i <= topics@.len(),
            all == views(topics@),
            views(index@) == inverted(all.take(i as int)),
        decreases topics@.len() - i,
    {
        let topic: &Topic = &topics[i];
        let ghost before = views(index@);
        let ghost keywords = views(topic.keywords@);
        let mut j: usize = 0;
        assert(with_uses(before, keywords.take(0), topic.id@) == before);
        while j < topic.keywords.len()
            invariant
                j <= topic.keywords@.len(),
                keywords == views(topic.keywords@),
                views(index@) == with_uses(before, keywords.take(j as int), topic.id@),
            decreases topic.keywords@.len() - j,
        {
            enter(&mut index, &topic.keywords[j], &topic.id);
            assert(keywords.take(j + 1).drop_last() =~= keywords.take(j as int));
            j += 1;
        }
        proof {
            assert(keywords.take(j as int) =~= keywords);
            assert(all.take(i + 1).drop_last() =~= all.take(i as int));
            assert(all.take(i + 1).last() == topic@);
        }
        i += 1;
    }
    assert(all.take(i as int) =~= all);
    index
}

// ---------------------------------------------------------------------------
// Laws
// ---------------------------------------------------------------------------

/// Whether every keyword comes before the next one.
pub open spec fn alphabetical(index: Seq<KeywordEntryView>) -> bool {
    forall|i: int, j: int|
        0 <= i < j < index.len() ==> text_before(
            (#[trigger] index[i]).keyword,
            (#[trigger] index[j]).keyword,
        )
}

/// The topics of a keyword in an index.
pub open spec fn ids_of(index: Seq<KeywordEntryView>, keyword: Seq<char>) -> Seq<Seq<char>>
    decreases index.len(),
{
    if index.len() == 0 {
        Seq::empty()
    } else if index.last().keyword == keyword {
        index.last().topic_ids
    } else {
        ids_of(index.drop_last(), keyword)
    }
}

/// `id` once for every time that `keyword` is among `keywords`.
pub open spec fn uses_in(keywords: Seq<Seq<char>>, keyword: Seq<char>, id: Seq<char>) -> Seq<
    Seq<char>,
>
    decreases keywords.len(),
{
    if keywords.len() == 0 {
        Seq::empty()
    } else if keywords.last() == keyword {
        uses_in(keywords.drop_last(), keyword, id).push(id)
    } else {
        uses_in(keywords.drop_last(), keyword, id)
    }
}

/// The topics that have a keyword, in order, each as often as it has it.
pub open spec fn uses_of(topics: Seq<TopicView>, keyword: Seq<char>) -> Seq<Seq<char>>
    decreases topics.len(),
{
    if topics.len() == 0 {
        Seq::empty()
    } else {
        uses_of(topics.drop_last(), keyword) + uses_in(
            topics.last().keywords,
            keyword,
            topics.last().id,
        )
    }
}

proof fn lemma_place(index: Seq<KeywordEntryView>, keyword: Seq<char>, from: int)
    requires
        0 <= from <= index.len(),
        forall|i: int| 0 <= i < from ==> text_before((#[trigger] index[i]).keyword, keyword),
    ensures
        from <= place_from(index, keyword, from) <= index.len(),
        forall|i: int|
            0 <= i < place_from(index, keyword, from) ==> text_before(
                (#[trigger] index[i]).keyword,
                keyword,
            ),
        place_from(index, keyword, from) < index.len() ==> !text_before(
            index[place_from(index, keyword, from)].keyword,
            keyword,
        ),
    decreases index.len() - from,
{
    if from < index.len() && text_before(index[from].keyword, keyword) {
        lemma_place(index, keyword, from + 1);
    }
}

/// From its place on, the keywords of an index come after a new keyword.
proof fn lemma_after_place(index: Seq<KeywordEntryView>, keyword: Seq<char>, i: int)
    requires
        alphabetical(index),
        place_from(index, keyword, 0) <= i < index.len(),
        index[place_from(index, keyword, 0)].keyword != keyword,
    ensures
        text_before(keyword, index[i].keyword),
{
    lemma_place(index, keyword, 0);
    let at = place_from(index, keyword, 0);
    law_total(index[at].keyword, keyword);
    if i > at {
        law_transitive(keyword, index[at].keyword, index[i].keyword);
    }
}

proof fn lemma_with_use_alphabetical(
    index: Seq<KeywordEntryView>,
    keyword: Seq<char>,
    id: Seq<char>,
)
    requires
        alphabetical(index),
    ensures
        alphabetical(with_use(index, keyword, id)),
{
    let at = place_from(index, keyword, 0);
    lemma_place(index, keyword, 0);
    let after = with_use(index, keyword, id);
    if at < index.len() && index[at].keyword == keyword {
        assert forall|i: int, j: int| 0 <= i < j < after.len() implies text_before(
            (#[trigger] after[i]).keyword,
            (#[trigger] after[j]).keyword,
        ) by {
            assert(after[i].keyword == index[i].keyword);
            assert(after[j].keyword == index[j].keyword);
        }
    } else {
        assert forall|i: int, j: int| 0 <= i < j < after.len() implies text_before(
            (#[trigger] after[i]).keyword,
            (#[trigger] after[j]).keyword,
        ) by {
            if j < at {
                assert(after[i] == index[i] && after[j] == index[j]);
            } else if i > at {
                assert(after[i] == index[i - 1] && after[j] == index[j - 1]);
            } else if j == at {
                assert(after[i] == index[i]);
            } else {
                assert(after[j] == index[j - 1]);
                if i == at {
                    lemma_after_place(index, keyword, j - 1);
                } else {
                    assert(after[i] == index[i]);
                }
            }
        }
    }
}

proof fn lemma_with_uses_alphabetical(
    index: Seq<KeywordEntryView>,
    keywords: Seq<Seq<char>>,
    id: Seq<char>,
)
    requires
        alphabetical(index),
    ensures
        alphabetical(with_uses(index, keywords, id)),
    decreases keywords.len(),
{
    if keywords.len() > 0 {
        lemma_with_uses_alphabetical(index, keywords.drop_last(), id);
        lemma_with_use_alphabetical(
            with_uses(index, keywords.drop_last(), id),
            keywords.last(),
            id,
        );
    }
}

/// The keywords of the index are in alphabetical order, and each occurs once.
pub proof fn law_index_is_alphabetical(topics: Seq<TopicView>)
    ensures
        alphabetical(inverted(topics)),
    decreases topics.len(),
{
    if topics.len() > 0 {
        law_index_is_alphabetical(topics.drop_last());
        lemma_with_uses_alphabetical(
            inverted(topics.drop_last()),
            topics.last().keywords,
            topics.last().id,
        );
    }
}

proof fn lemma_uses_are_there(
    index: Seq<KeywordEntryView>,
    keywords: Seq<Seq<char>>,
    id: Seq<char>,
)
    requires
        forall|i: int| 0 <= i < index.len() ==> (#[trigger] index[i]).topic_ids.len() > 0,
    ensures
        forall|i: int|
            0 <= i < with_uses(index, keywords, id).len() ==> (#[trigger] with_uses(
                index,
                keywords,
                id,
            )[i]).topic_ids.len() > 0,
    decreases keywords.len(),
{
    if keywords.len() > 0 {
        lemma_uses_are_there(index, keywords.drop_last(), id);
        let before = with_uses(index, keywords.drop_last(), id);
        let after = with_uses(index, keywords, id);
        let at = place_from(before, keywords.last(), 0);
        lemma_place(before, keywords.last(), 0);
        assert forall|i: int| 0 <= i < after.len() implies (#[trigger] after[i]).topic_ids.len()
            > 0 by {
            if at < before.len() && before[at].keyword == keywords.last() {
                assert(before[i].topic_ids.len() > 0);
            } else if i < at {
                assert(before[i].topic_ids.len() > 0);
            } else if i > at {
                assert(before[i - 1].topic_ids.len() > 0);
            }
        }
    }
}

/// Every keyword of the index has a topic.
pub proof fn law_index_has_no_idle_keywords(topics: Seq<TopicView>)
    ensures
        forall|i: int|
            0 <= i < inverted(topics).len() ==> (#[trigger] inverted(topics)[i]).topic_ids.len()
                > 0,
    decreases topics.len(),
{
    if topics.len() > 0 {
        law_index_has_no_idle_keywords(topics.drop_last());
        lemma_uses_are_there(
            inverted(topics.drop_last()),
            topics.last().keywords,
            topics.last().id,
        );
    }
}

/// Where one entry has the keyword, its topics are the topics of the keyword.
proof fn lemma_ids_at(index: Seq<KeywordEntryView>, keyword: Seq<char>, at: int)
    requires
        0 <= at < index.len(),
        index[at].keyword == keyword,
        forall|i: int|
            0 <= i < index.len() && i != at ==> (#[trigger] index[i]).keyword != keyword,
    ensures
        ids_of(index, keyword) == index[at].topic_ids,
    decreases index.len(),
{
    if at < index.len() - 1 {
        assert(index[index.len() - 1].keyword != keyword);
        let shorter = index.drop_last();
        assert forall|i: int| 0 <= i < shorter.len() && i != at implies (#[trigger] shorter[i]).keyword
            != keyword by {
            assert(index[i].keyword != keyword);
        }
        lemma_ids_at(shorter, keyword, at);
    }
}

/// Where no entry has the keyword, it has no topics.
proof fn lemma_ids_none(index: Seq<KeywordEntryView>, keyword: Seq<char>)
    requires
        forall|i: int| 0 <= i < index.len() ==> (#[trigger] index[i]).keyword != keyword,
    ensures
        ids_of(index, keyword) == Seq::<Seq<char>>::empty(),
    decreases index.len(),
{
    if index.len() > 0 {
        assert(index[index.len() - 1].keyword != keyword);
        let shorter = index.drop_last();
        assert forall|i: int| 0 <= i < shorter.len() implies (#[trigger] shorter[i]).keyword
            != keyword by {
            assert(index[i].keyword != keyword);
        }
        lemma_ids_none(shorter, keyword);
    }
}

/// In an alphabetical index no other entry has the keyword of entry `at`.
proof fn lemma_unique(index: Seq<KeywordEntryView>, at: int)
    requires
        alphabetical(index),
        0 <= at < index.len(),
    ensures
        forall|i: int|
            0 <= i < index.len() && i != at ==> (#[trigger] index[i]).keyword
                != index[at].keyword,
{
    law_irreflexive(index[at].keyword);
    assert forall|i: int| 0 <= i < index.len() && i != at implies (#[trigger] index[i]).keyword
        != index[at].keyword by {
        if i < at {
            assert(text_before(index[i].keyword, index[at].keyword));
        } else {
            assert(text_before(index[at].keyword, index[i].keyword));
        }
    }
}

proof fn lemma_ids_with_use(
    index: Seq<KeywordEntryView>,
    keyword: Seq<char>,
    id: Seq<char>,
    other: Seq<char>,
)
    requires
        alphabetical(index),
    ensures
        ids_of(with_use(index, keyword, id), other) == if other == keyword {
            ids_of(index, other).push(id)
        } else {
            ids_of(index, other)
        },
{
    let at = place_from(index, keyword, 0);
    let after = with_use(index, keyword, id);
    lemma_place(index, keyword, 0);
    lemma_with_use_alphabetical(index, keyword, id);
    law_irreflexive(keyword);
    let found = at < index.len() && index[at].keyword == keyword;
    if other == keyword {
        lemma_unique(after, at);
        lemma_ids_at(after, keyword, at);
        if found {
            lemma_unique(index, at);
            lemma_ids_at(index, keyword, at);
        } else {
            assert forall|i: int| 0 <= i < index.len() implies (#[trigger] index[i]).keyword
                != keyword by {
                if i >= at {
                    lemma_after_place(index, keyword, i);
                }
            }
            lemma_ids_none(index, keyword);
            assert(Seq::<Seq<char>>::empty().push(id) =~= seq![id]);
        }
    } else if exists|k: int| 0 <= k < index.len() && #[trigger] index[k].keyword == other {
        let k = choose|k: int| 0 <= k < index.len() && #[trigger] index[k].keyword == other;
        lemma_unique(index, k);
        lemma_ids_at(index, other, k);
        let moved = if found || k < at {
            k
        } else {
            k + 1
        };
        assert(after[moved] == index[k]);
        lemma_unique(after, moved);
        lemma_ids_at(after, other, moved);
    } else {
        lemma_ids_none(index, other);
        assert forall|i: int| 0 <= i < after.len() implies (#[trigger] after[i]).keyword
            != other by {
            if i != at {
                let k = if found || i < at {
                    i
                } else {
                    i - 1
                };
                assert(after[i] == index[k]);
            }
        }
        lemma_ids_none(after, other);
    }
}

proof fn lemma_ids_with_uses(
    index: Seq<KeywordEntryView>,
    keywords: Seq<Seq<char>>,
    id: Seq<char>,
    keyword: Seq<char>,
)
    requires
        alphabetical(index),
    ensures
        ids_of(with_uses(index, keywords, id), keyword) == ids_of(index, keyword) + uses_in(
            keywords,
            keyword,
            id,
        ),
    decreases keywords.len(),
{
    if keywords.len() == 0 {
        assert(ids_of(index, keyword) + Seq::<Seq<char>>::empty() =~= ids_of(index, keyword));
    } else {
        let before = with_uses(index, keywords.drop_last(), id);
        lemma_ids_with_uses(index, keywords.drop_last(), id, keyword);
        lemma_with_uses_alphabetical(index, keywords.drop_last(), id);
        lemma_ids_with_use(before, keywords.last(), id, keyword);
        if keywords.last() == keyword {
            assert((ids_of(index, keyword) + uses_in(keywords.drop_last(), keyword, id)).push(id)
                =~= ids_of(index, keyword) + uses_in(keywords.drop_last(), keyword, id).push(id));
        }
    }
}

/// The index leads from every keyword to exactly the topics that have it, in
/// the order of the topics; a keyword that no topic has leads nowhere.
pub proof fn law_index_inverts_topics(topics: Seq<TopicView>, keyword: Seq<char>)
    ensures
        ids_of(inverted(topics), keyword) == uses_of(topics, keyword),
    decreases topics.len(),
{
    if topics.len() > 0 {
        law_index_inverts_topics(topics.drop_last(), keyword);
        law_index_is_alphabetical(topics.drop_last());
        lemma_ids_with_uses(
            inverted(topics.drop_last()),
            topics.last().keywords,
            topics.last().id,
            keyword,
        );
    }
}

} // verus!

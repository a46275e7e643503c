//! Topic names and the filters that select them.
use crate::text;
use vstd::prelude::*;

verus! {

/// The levels of a topic or a filter: what stands between the slashes.
pub open spec fn levels(s: Seq<char>) -> Seq<Seq<char>>
    decreases s.len(),
{
    if s.len() == 0 {
        seq![Seq::<char>::empty()]
    } else {
        let before = levels(s.drop_last());
        if s.last() == '/' {
            before.push(Seq::<char>::empty())
        } else {
            before.update(before.len() - 1, before.last().push(s.last()))
        }
    }
}

/// Whether the levels of a filter select the levels of a topic. `+` stands for
/// one level, `#` for all levels from there on, none included.
pub open spec fn levels_match(topic: Seq<Seq<char>>, filter: Seq<Seq<char>>) -> bool
    decreases filter.len(),
{
    if filter.len() == 0 {
        topic.len() == 0
    } else if filter[0] == seq!['#'] {
        true
    } else if topic.len() == 0 || topic[0] == seq!['#'] {
        false
    } else if filter[0] == seq!['+'] || filter[0] == topic[0] {
        levels_match(topic.skip(1), filter.skip(1))
    } else {
        false
    }
}

/// Whether a filter selects a topic. Topics that start with `$` are selected by
/// no filter.
pub open spec fn topic_matches(topic: Seq<char>, filter: Seq<char>) -> bool {
    &&& !(topic.len() > 0 && topic[0] == '$')
    &&& levels_match(levels(topic), levels(filter))
}

/// Levels select themselves.
proof fn lemma_levels_match(levels: Seq<Seq<char>>)
    ensures
        levels_match(levels, levels),
    decreases levels.len(),
{
    if levels.len() > 0 {
        lemma_levels_match(levels.skip(1));
    }
}

/// A topic is selected by the filter that reads the same, unless it starts with
/// `$`.
pub proof fn law_topic_selects_itself(topic: Seq<char>)
    ensures
        topic_matches(topic, topic) <==> !(topic.len() > 0 && topic[0] == '$'),
{
    lemma_levels_match(levels(topic));
}

pub open spec fn view_levels(v: Seq<Vec<char>>) -> Seq<Seq<char>> {
    Seq::new(v.len(), |i: int| v[i]@)
}

fn split(s: &Vec<char>) -> (out: Vec<Vec<char>>)
    ensures
        view_levels(out@) == levels(s@),
{
    let mut done: Vec<Vec<char>> = Vec::new();
    let mut current: Vec<char> = Vec::new();
    let mut i: usize = 0;
    assert(view_levels(done@).push(current@) =~= levels(s@.take(0)));
    while i < s.len()
        invariant
            i <= s.len(),
            view_levels(done@).push(current@) == levels(s@.take(i as int)),
        decreases s.len() - i,
    {
        let ghost before = view_levels(done@).push(current@);
        assert(s@.take(i + 1).drop_last() =~= s@.take(i as int));
        if s[i] == '/' {
            done.push(current);
            assert(view_levels(done@) =~= before);
            current = Vec::new();
        } else {
            current.push(s[i]);
            assert(before.update(before.len() - 1, current@) =~= view_levels(done@).push(current@));
        }
        i = i + 1;
    }
    assert(s@.take(s@.len() as int) =~= s@);
    let ghost before = view_levels(done@).push(current@);
    done.push(current);
    assert(view_levels(done@) =~= before);
    done
}

fn same(a: &Vec<char>, b: &Vec<char>) -> (same: bool)
    ensures
        same == (a@ == b@),
{
    if a.len() != b.len() {
        return false;
    }
    let mut i: usize = 0;
    while i < a.len()
        invariant
            i <= a.len() == b.len(),
            forall|j: int| 0 <= j < i ==> a@[j] == b@[j],
        decreases a.len() - i,
    {
        if a[i] != b[i] {
            return false;
        }
        i = i + 1;
    }
    assert(a@ =~= b@);
    true
}

fn is_only(level: &Vec<char>, c: char) -> (found: bool)
    ensures
        found == (level@ == seq![c]),
{
    let found = level.len() == 1 && level[0] == c;
    assert(found ==> level@ =~= seq![c]);
    found
}

/// Whether a filter selects a topic.
pub fn matches(topic: &str, filter: &str) -> (found: bool)
    ensures
        found == topic_matches(topic@, filter@),
{
    let chars = text::characters(topic);
    if chars.len() > 0 && chars[0] == '$' {
        return false;
    }
    let topics = split(&chars);
    let filters = split(&text::characters(filter));
    let mut i: usize = 0;
    let ghost t = view_levels(topics@);
    let ghost f = view_levels(filters@);
    assert(t.skip(0) =~= t);
    assert(f.skip(0) =~= f);
    while i < filters.len()
        invariant
            i <= filters.len(),
            i <= topics.len(),
            t == view_levels(topics@),
            f == view_levels(filters@),
            levels_match(t, f) == levels_match(t.skip(i as int), f.skip(i as int)),
            topic_matches(topic@, filter@) == levels_match(t, f),
        decreases filters.len() - i,
    {
        assert(f.skip(i as int)[0] == filters@[i as int]@);
        if is_only(&filters[i], '#') {
            return true;
        }
        if i >= topics.len() {
            return false;
        }
        assert(t.skip(i as int)[0] == topics@[i as int]@);
        if is_only(&topics[i], '#') {
            return false;
        }
        if !is_only(&filters[i], '+') && !same(&filters[i], &topics[i]) {
            return false;
        }
        assert(t.skip(i as int).skip(1) =~= t.skip(i + 1));
        assert(f.skip(i as int).skip(1) =~= f.skip(i + 1));
        i = i + 1;
    }
    i == topics.len()
}

/// `#` selects every topic that does not start with `$`.
pub proof fn law_hash_selects_all(topic: Seq<char>)
    ensures
        topic_matches(topic, seq!['#']) <==> !(topic.len() > 0 && topic[0] == '$'),
{
    let filter = seq!['#'];
    assert(filter.drop_last() =~= Seq::<char>::empty());
    assert(levels(filter.drop_last()) =~= seq![Seq::<char>::empty()]);
    assert(levels(filter)[0] =~= seq!['#']);
}

/// A filter without wildcards selects the levels that it has itself, and no
/// others.
pub proof fn law_plain_filter_selects_itself(topic: Seq<Seq<char>>, filter: Seq<Seq<char>>)
    requires
        forall|i: int|
            0 <= i < filter.len() ==> (#[trigger] filter[i]) != seq!['#'] && filter[i] != seq!['+'],
    ensures
        levels_match(topic, filter) <==> topic == filter,
    decreases filter.len(),
{
    if filter.len() > 0 {
        assert(filter[0] != seq!['#'] && filter[0] != seq!['+']);
        let rest = filter.skip(1);
        assert forall|i: int| 0 <= i < rest.len() implies (#[trigger] rest[i]) != seq!['#']
            && rest[i] != seq!['+'] by {
            assert(rest[i] == filter[i + 1]);
        }
        if topic.len() > 0 {
            law_plain_filter_selects_itself(topic.skip(1), rest);
            assert(topic =~= seq![topic[0]] + topic.skip(1));
            assert(filter =~= seq![filter[0]] + rest);
        }
    } else {
        assert(topic.len() == 0 ==> topic =~= filter);
    }
}

/// `+` stands for any one level.
pub proof fn law_plus_selects_one_level(
    topic: Seq<Seq<char>>,
    filter: Seq<Seq<char>>,
    i: int,
    level: Seq<char>,
)
    requires
        levels_match(topic, filter),
        0 <= i < topic.len(),
        i < filter.len(),
        filter[i] == seq!['+'],
        level != seq!['#'],
        forall|k: int| 0 <= k < i ==> (#[trigger] filter[k]) != seq!['#'],
    ensures
        levels_match(topic.update(i, level), filter),
    decreases filter.len(),
{
    assert(seq!['+'][0] != seq!['#'][0]);
    let after = topic.update(i, level);
    if i == 0 {
        assert(after.skip(1) =~= topic.skip(1));
    } else {
        assert(filter[0] != seq!['#']);
        assert forall|k: int| 0 <= k < i - 1 implies (#[trigger] filter.skip(1)[k]) != seq!['#'] by {
            assert(filter.skip(1)[k] == filter[k + 1]);
        }
        law_plus_selects_one_level(topic.skip(1), filter.skip(1), i - 1, level);
        assert(after.skip(1) =~= topic.skip(1).update(i - 1, level));
    }
}

/// Levels, with a slash between any two.
pub open spec fn joined(levels: Seq<Seq<char>>) -> Seq<char>
    decreases levels.len(),
{
    if levels.len() == 0 {
        Seq::empty()
    } else if levels.len() == 1 {
        levels[0]
    } else {
        joined(levels.drop_last()).push('/') + levels.last()
    }
}

/// The levels of a text, with slashes between them, are the text; there is at
/// least one, and none holds a slash.
pub proof fn law_levels_make_the_text(s: Seq<char>)
    ensures
        levels(s).len() > 0,
        joined(levels(s)) == s,
        forall|i: int| 0 <= i < levels(s).len() ==> !(#[trigger] levels(s)[i]).contains('/'),
    decreases s.len(),
{
    let all = levels(s);
    if s.len() == 0 {
        assert(joined(all) =~= s);
    } else {
        let before = levels(s.drop_last());
        law_levels_make_the_text(s.drop_last());
        let n = before.len() as int;
        if s.last() == '/' {
            assert(all.drop_last() =~= before);
            assert(joined(all) =~= s);
            assert forall|i: int| 0 <= i < all.len() implies !(#[trigger] all[i]).contains(
                '/',
            ) by {
                if i < n {
                    assert(all[i] == before[i]);
                }
            }
        } else {
            assert(all.drop_last() =~= before.drop_last());
            assert(all.last() == before.last().push(s.last()));
            assert(joined(all) =~= joined(before).push(s.last()));
            assert(s =~= s.drop_last().push(s.last()));
            assert forall|i: int| 0 <= i < all.len() implies !(#[trigger] all[i]).contains(
                '/',
            ) by {
                assert(!before[i].contains('/'));
                if i == n - 1 {
                    let level = all[i];
                    if level.contains('/') {
                        let k = choose|k: int| 0 <= k < level.len() && level[k] == '/';
                        assert(before[i][k] == '/');
                    }
                }
            }
        }
    }
}

/// Whether a level of a filter stands for a level of a topic.
pub open spec fn level_selects(filter: Seq<char>, topic: Seq<char>) -> bool {
    topic != seq!['#'] && (filter == seq!['+'] || filter == topic)
}

/// What a filter selects: each of its levels before the first `#` stands for the
/// level of the topic at the same place; and where there is no `#` the topic has
/// as many levels as the filter.
pub proof fn law_filter_goes_level_by_level(
    topic: Seq<Seq<char>>,
    filter: Seq<Seq<char>>,
    n: int,
)
    requires
        0 <= n <= filter.len(),
        forall|i: int| 0 <= i < n ==> (#[trigger] filter[i]) != seq!['#'],
        n < filter.len() ==> filter[n] == seq!['#'],
    ensures
        levels_match(topic, filter) <==> n <= topic.len() && (n == filter.len() ==> topic.len()
            == n) && forall|i: int| 0 <= i < n ==> level_selects(#[trigger] filter[i], topic[i]),
    decreases filter.len(),
{
    if filter.len() > 0 && n > 0 {
        assert(filter[0] != seq!['#']);
        if topic.len() > 0 {
            let rest = filter.skip(1);
            let left = topic.skip(1);
            assert forall|i: int| 0 <= i < n - 1 implies (#[trigger] rest[i]) != seq!['#'] by {
                assert(rest[i] == filter[i + 1]);
            }
            law_filter_goes_level_by_level(left, rest, n - 1);
            if levels_match(topic, filter) {
                assert forall|i: int| 0 <= i < n implies level_selects(
                    #[trigger] filter[i],
                    topic[i],
                ) by {
                    if i > 0 {
                        assert(level_selects(rest[i - 1], left[i - 1]));
                    }
                }
            } else if n <= topic.len() && (n == filter.len() ==> topic.len() == n) && (forall|
                i: int,
            |
                0 <= i < n ==> level_selects(#[trigger] filter[i], topic[i])) {
                assert(level_selects(filter[0], topic[0]));
                assert forall|i: int| 0 <= i < n - 1 implies level_selects(
                    #[trigger] rest[i],
                    left[i],
                ) by {
                    assert(level_selects(filter[i + 1], topic[i + 1]));
                }
            }
        }
    }
}

/// A topic that starts with `$` is selected by no filter; any other by those
/// that go with its levels.
pub proof fn law_dollar_topics_are_not_selected(topic: Seq<char>, filter: Seq<char>)
    ensures
        topic.len() > 0 && topic[0] == '$' ==> !topic_matches(topic, filter),
        topic.len() == 0 || topic[0] != '$' ==> topic_matches(topic, filter) == levels_match(
            levels(topic),
            levels(filter),
        ),
{
}

} // verus!

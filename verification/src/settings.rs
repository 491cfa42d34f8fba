//! The settings of `godebug`: a list that holds each key once.
//!
//! A setting is put where its key stands already, else at the end, so that
//! of two values for one key the later stays and the order of the first
//! occurrences is kept. As a mapping from key to value, a put is an
//! insertion.

use vstd::pervasive::VecAdditionalExecFns;
use vstd::prelude::*;
use crate::Setting;

verus! {

/// Whether some setting of `settings` has the key `key`.
pub open spec fn has_key(settings: Seq<Setting>, key: Seq<char>) -> bool {
    exists|i: int| 0 <= i < settings.len() && (#[trigger] settings[i]).0 == key
}

/// The place of the first setting with the key `key`.
pub open spec fn key_index(settings: Seq<Setting>, key: Seq<char>) -> int
    recommends
        has_key(settings, key),
{
    choose|i: int|
        0 <= i < settings.len() && (#[trigger] settings[i]).0 == key && forall|j: int|
            0 <= j < i ==> (#[trigger] settings[j]).0 != key
}

/// The settings with `key` set to `value`: in the place where the key
/// stands already, else at the end.
pub open spec fn put(settings: Seq<Setting>, key: Seq<char>, value: Seq<char>) -> Seq<Setting> {
    if has_key(settings, key) {
        settings.update(key_index(settings, key), (key, value))
    } else {
        settings.push((key, value))
    }
}

/// The settings with each of `more` put in turn, so that of two values for
/// one key the later stays.
pub open spec fn merge(settings: Seq<Setting>, more: Seq<Setting>) -> Seq<Setting>
    decreases more.len(),
{
    if more.len() == 0 {
        settings
    } else {
        put(merge(settings, more.drop_last()), more.last().0, more.last().1)
    }
}

/// Whether no key stands twice in `settings`.
pub open spec fn distinct_keys(settings: Seq<Setting>) -> bool {
    forall|i: int, j: int|
        0 <= i < j < settings.len() ==> (#[trigger] settings[i]).0 != (#[trigger] settings[j]).0
}

/// The settings as a mapping from key to value.
pub open spec fn as_map(settings: Seq<Setting>) -> Map<Seq<char>, Seq<char>> {
    Map::new(
        |key: Seq<char>| has_key(settings, key),
        |key: Seq<char>| settings[key_index(settings, key)].1,
    )
}

/// Among the settings up to one with the key `key` there is a first with
/// that key.
proof fn lemma_first_key(settings: Seq<Setting>, key: Seq<char>, upto: int)
    requires
        0 <= upto < settings.len(),
        settings[upto].0 == key,
    ensures
        exists|i: int|
            0 <= i <= upto && (#[trigger] settings[i]).0 == key && forall|j: int|
                0 <= j < i ==> (#[trigger] settings[j]).0 != key,
    decreases upto,
{
    if exists|j: int| 0 <= j < upto && (#[trigger] settings[j]).0 == key {
        let j = choose|j: int| 0 <= j < upto && (#[trigger] settings[j]).0 == key;
        lemma_first_key(settings, key, j);
    }
}

/// The place of a key is the place of the first setting with that key.
pub proof fn lemma_key_index(settings: Seq<Setting>, key: Seq<char>)
    requires
        has_key(settings, key),
    ensures
        0 <= key_index(settings, key) < settings.len(),
        settings[key_index(settings, key)].0 == key,
        forall|j: int| 0 <= j < key_index(settings, key) ==> (#[trigger] settings[j]).0 != key,
{
    let upto = choose|i: int| 0 <= i < settings.len() && (#[trigger] settings[i]).0 == key;
    lemma_first_key(settings, key, upto);
}

/// Putting a setting keeps the keys distinct.
pub proof fn lemma_put_distinct(settings: Seq<Setting>, key: Seq<char>, value: Seq<char>)
    requires
        distinct_keys(settings),
    ensures
        distinct_keys(put(settings, key, value)),
        has_key(put(settings, key, value), key),
        put(settings, key, value)[key_index(put(settings, key, value), key)].1 == value,
        forall|other: Seq<char>|
            other != key ==> (has_key(put(settings, key, value), other) <==> has_key(
                settings,
                other,
            )),
        forall|other: Seq<char>|
            other != key && has_key(settings, other) ==> put(settings, key, value)[key_index(
                put(settings, key, value),
                other,
            )].1 == settings[key_index(settings, other)].1,
{
    let after = put(settings, key, value);
    if has_key(settings, key) {
        let at = key_index(settings, key);
        assert(after[at].0 == key);
        assert forall|i: int| 0 <= i < after.len() implies (#[trigger] after[i]).0
            == settings[i].0 by {}
    } else {
        assert(after[settings.len() as int].0 == key);
        assert forall|i: int| 0 <= i < settings.len() implies (#[trigger] after[i])
            == settings[i] by {}
    }
    assert(has_key(after, key));
    assert(distinct_keys(after)) by {
        assert forall|i: int, j: int| 0 <= i < j < after.len() implies (#[trigger] after[i]).0 != (
        #[trigger] after[j]).0 by {
            if has_key(settings, key) {
                assert(after[i].0 == settings[i].0 && after[j].0 == settings[j].0);
            } else if j < settings.len() {
                assert(after[i] == settings[i] && after[j] == settings[j]);
            } else {
                assert(after[i] == settings[i]);
                assert(settings[i].0 != key);
            }
        }
    }
    let at = key_index(after, key);
    assert(after[at].1 == value) by {
        if has_key(settings, key) {
            let old_at = key_index(settings, key);
            assert(after[old_at].0 == key);
            if at != old_at {
                if at < old_at {
                    assert(after[at].0 != after[old_at].0);
                } else {
                    assert(after[old_at].0 != after[at].0);
                }
            }
        } else {
            if at != settings.len() {
                assert(after[at] == settings[at]);
            }
        }
    }
    assert forall|other: Seq<char>| other != key implies (has_key(after, other) <==> has_key(
        settings,
        other,
    )) by {
        if has_key(after, other) {
            let i = choose|i: int| 0 <= i < after.len() && (#[trigger] after[i]).0 == other;
            assert(0 <= i < settings.len() && settings[i].0 == other);
        }
        if has_key(settings, other) {
            let i = choose|i: int| 0 <= i < settings.len() && (#[trigger] settings[i]).0 == other;
            assert(after[i].0 == other);
        }
    }
    assert forall|other: Seq<char>|
        other != key && has_key(settings, other) implies after[key_index(after, other)].1
        == settings[key_index(settings, other)].1 by {
        let i = key_index(settings, other);
        let j = key_index(after, other);
        assert(has_key(after, other));
        assert(0 <= j < settings.len() && settings[j].0 == other);
        if i < j {
            assert(settings[i].0 != settings[j].0);
        } else if j < i {
            assert(settings[j].0 != settings[i].0);
        }
        assert(after[i].1 == settings[i].1) by {
            if has_key(settings, key) {
                assert(settings[key_index(settings, key)].0 == key);
            }
        }
    }
}

/// Of two values that are put for one key, the later stays: as a mapping,
/// the settings after a put are the settings before it with the key
/// inserted.
pub proof fn lemma_put_inserts(settings: Seq<Setting>, key: Seq<char>, value: Seq<char>)
    requires
        distinct_keys(settings),
    ensures
        as_map(put(settings, key, value)) == as_map(settings).insert(key, value),
{
    lemma_put_distinct(settings, key, value);
    assert(as_map(put(settings, key, value)) =~= as_map(settings).insert(key, value));
}

/// The mapping `map` after the settings of `more` were inserted in turn.
pub open spec fn insert_all(map: Map<Seq<char>, Seq<char>>, more: Seq<Setting>) -> Map<
    Seq<char>,
    Seq<char>,
>
    decreases more.len(),
{
    if more.len() == 0 {
        map
    } else {
        insert_all(map, more.drop_last()).insert(more.last().0, more.last().1)
    }
}

/// Merging keeps the keys distinct and is, on the mapping, the insertion
/// of the new settings in their order.
pub proof fn lemma_merge_inserts(settings: Seq<Setting>, more: Seq<Setting>)
    requires
        distinct_keys(settings),
    ensures
        distinct_keys(merge(settings, more)),
        as_map(merge(settings, more)) == insert_all(as_map(settings), more),
    decreases more.len(),
{
    if more.len() > 0 {
        let front = more.drop_last();
        let last = more.last();
        lemma_merge_inserts(settings, front);
        lemma_put_distinct(merge(settings, front), last.0, last.1);
        lemma_put_inserts(merge(settings, front), last.0, last.1);
    }
}

/// After the settings of `more` were inserted in turn, a key that `more`
/// sets has the value of its last setting in `more`.
pub proof fn lemma_insert_all_last(map: Map<Seq<char>, Seq<char>>, more: Seq<Setting>, i: int)
    requires
        0 <= i < more.len(),
        forall|j: int| i < j < more.len() ==> (#[trigger] more[j]).0 != more[i].0,
    ensures
        insert_all(map, more).contains_pair(more[i].0, more[i].1),
    decreases more.len(),
{
    if i < more.len() - 1 {
        let front = more.drop_last();
        assert(front[i] == more[i]);
        assert(more[more.len() - 1].0 != more[i].0);
        assert forall|j: int| i < j < front.len() implies (#[trigger] front[j]).0
            != front[i].0 by {
            assert(front[j] == more[j]);
        }
        lemma_insert_all_last(map, front, i);
    }
}

/// Merging keeps the keys distinct and is, on the mapping, the insertion
/// of the new settings in their order. So a key that `more` sets has
/// afterwards the value of its last setting in `more`.
pub proof fn lemma_merge_last_wins(settings: Seq<Setting>, more: Seq<Setting>)
    requires
        distinct_keys(settings),
    ensures
        distinct_keys(merge(settings, more)),
        as_map(merge(settings, more)) == insert_all(as_map(settings), more),
        forall|i: int|
            0 <= i < more.len() && (forall|j: int|
                i < j < more.len() ==> (#[trigger] more[j]).0 != more[i].0) ==> as_map(
                merge(settings, more),
            ).contains_pair((#[trigger] more[i]).0, more[i].1),
{
    lemma_merge_inserts(settings, more);
    assert forall|i: int|
        0 <= i < more.len() && (forall|j: int|
            i < j < more.len() ==> (#[trigger] more[j]).0 != more[i].0) implies as_map(
        merge(settings, more),
    ).contains_pair((#[trigger] more[i]).0, more[i].1) by {
        lemma_insert_all_last(as_map(settings), more, i);
    }
}

/// Merging two lists in turn is merging the two lists joined.
pub proof fn lemma_merge_joined(settings: Seq<Setting>, first: Seq<Setting>, second: Seq<Setting>)
    ensures
        merge(merge(settings, first), second) == merge(settings, first + second),
    decreases second.len(),
{
    if second.len() == 0 {
        assert(first + second =~= first);
    } else {
        lemma_merge_joined(settings, first, second.drop_last());
        assert((first + second).drop_last() =~= first + second.drop_last());
        assert((first + second).last() == second.last());
    }
}

/// A put keeps every setting's key in its place, and the new key is a key
/// afterwards.
pub proof fn lemma_put_keys(settings: Seq<Setting>, key: Seq<char>, value: Seq<char>)
    ensures
        put(settings, key, value).len() >= settings.len(),
        forall|k: int|
            0 <= k < settings.len() ==> (#[trigger] put(settings, key, value)[k]).0
                == settings[k].0,
        has_key(put(settings, key, value), key),
{
    let after = put(settings, key, value);
    if has_key(settings, key) {
        lemma_key_index(settings, key);
        let at = key_index(settings, key);
        assert(after[at].0 == key);
    } else {
        assert(after[settings.len() as int].0 == key);
    }
}

/// A merge keeps every setting's key in its place, and each new key is a
/// key afterwards.
pub proof fn lemma_merge_keys(settings: Seq<Setting>, more: Seq<Setting>)
    ensures
        merge(settings, more).len() >= settings.len(),
        forall|k: int|
            0 <= k < settings.len() ==> (#[trigger] merge(settings, more)[k]).0 == settings[k].0,
        forall|k: int|
            0 <= k < more.len() ==> has_key(merge(settings, more), (#[trigger] more[k]).0),
    decreases more.len(),
{
    if more.len() > 0 {
        let front = merge(settings, more.drop_last());
        lemma_merge_keys(settings, more.drop_last());
        lemma_put_keys(front, more.last().0, more.last().1);
        let after = merge(settings, more);
        assert forall|k: int| 0 <= k < more.len() implies has_key(
            after,
            (#[trigger] more[k]).0,
        ) by {
            if k < more.len() - 1 {
                assert(more.drop_last()[k] == more[k]);
                let at = choose|at: int|
                    0 <= at < front.len() && (#[trigger] front[at]).0 == more[k].0;
                assert(after[at].0 == more[k].0);
            }
        }
    }
}

/// Whether every setting of `settings` has a key and a value that are not
/// empty.
pub open spec fn all_filled(settings: Seq<Setting>) -> bool {
    forall|k: int|
        0 <= k < settings.len() ==> (#[trigger] settings[k]).0.len() > 0 && settings[k].1.len() > 0
}

/// Merging filled settings into filled settings gives filled settings.
pub proof fn lemma_merge_filled(settings: Seq<Setting>, more: Seq<Setting>)
    requires
        all_filled(settings),
        all_filled(more),
    ensures
        all_filled(merge(settings, more)),
    decreases more.len(),
{
    if more.len() > 0 {
        let front = merge(settings, more.drop_last());
        assert forall|k: int| 0 <= k < more.drop_last().len() implies (
        #[trigger] more.drop_last()[k]).0.len() > 0 && more.drop_last()[k].1.len() > 0 by {
            assert(more.drop_last()[k] == more[k]);
        }
        lemma_merge_filled(settings, more.drop_last());
        let last = more.last();
        assert(last == more[more.len() - 1]);
        if has_key(front, last.0) {
            lemma_key_index(front, last.0);
        }
        let after = put(front, last.0, last.1);
        assert forall|k: int| 0 <= k < after.len() implies (#[trigger] after[k]).0.len() > 0
            && after[k].1.len() > 0 by {
            if has_key(front, last.0) {
                if k != key_index(front, last.0) {
                    assert(after[k] == front[k]);
                }
            } else if k < front.len() {
                assert(after[k] == front[k]);
            }
        }
    }
}

/// The place of a key is the one place that holds the key and has no
/// setting with the key before it.
pub proof fn lemma_key_index_is(settings: Seq<Setting>, key: Seq<char>, at: int)
    requires
        0 <= at < settings.len(),
        settings[at].0 == key,
        forall|j: int| 0 <= j < at ==> (#[trigger] settings[j]).0 != key,
    ensures
        has_key(settings, key),
        key_index(settings, key) == at,
{
    lemma_key_index(settings, key);
    let found = key_index(settings, key);
    if found < at {
        assert(settings[found].0 != key);
    }
}

/// Of two puts for one key, one after the other, the second alone does
/// the same.
pub proof fn lemma_put_twice(
    settings: Seq<Setting>,
    key: Seq<char>,
    first: Seq<char>,
    second: Seq<char>,
)
    ensures
        put(put(settings, key, first), key, second) == put(settings, key, second),
{
    if has_key(settings, key) {
        lemma_key_index(settings, key);
        let at = key_index(settings, key);
        let once = settings.update(at, (key, first));
        assert forall|j: int| 0 <= j < at implies (#[trigger] once[j]).0 != key by {
            assert(once[j] == settings[j]);
        }
        lemma_key_index_is(once, key, at);
        assert(once.update(at, (key, second)) =~= settings.update(at, (key, second)));
    } else {
        let once = settings.push((key, first));
        let at = settings.len() as int;
        assert forall|j: int| 0 <= j < at implies (#[trigger] once[j]).0 != key by {
            assert(once[j] == settings[j]);
        }
        lemma_key_index_is(once, key, at);
        assert(once.update(at, (key, second)) =~= settings.push((key, second)));
    }
}

/// A put for a key that the settings hold already changes places with a
/// put for another key.
pub proof fn lemma_put_swap(
    settings: Seq<Setting>,
    key: Seq<char>,
    value: Seq<char>,
    other: Seq<char>,
    other_value: Seq<char>,
)
    requires
        has_key(settings, key),
        other != key,
    ensures
        put(put(settings, key, value), other, other_value) == put(
            put(settings, other, other_value),
            key,
            value,
        ),
{
    lemma_key_index(settings, key);
    let at = key_index(settings, key);
    let first = settings.update(at, (key, value));
    assert(first == put(settings, key, value));
    if has_key(settings, other) {
        lemma_key_index(settings, other);
        let place = key_index(settings, other);
        assert forall|j: int| 0 <= j < place implies (#[trigger] first[j]).0 != other by {
            assert(first[j].0 == settings[j].0);
        }
        lemma_key_index_is(first, other, place);
        let second = settings.update(place, (other, other_value));
        assert(second == put(settings, other, other_value));
        assert forall|j: int| 0 <= j < at implies (#[trigger] second[j]).0 != key by {
            assert(second[j].0 == settings[j].0);
        }
        lemma_key_index_is(second, key, at);
        assert(first.update(place, (other, other_value)) =~= second.update(at, (key, value)));
    } else {
        assert(!has_key(first, other)) by {
            if has_key(first, other) {
                let j = choose|j: int| 0 <= j < first.len() && (#[trigger] first[j]).0 == other;
                assert(settings[j].0 == other);
            }
        }
        let second = settings.push((other, other_value));
        assert(second == put(settings, other, other_value));
        assert forall|j: int| 0 <= j < at implies (#[trigger] second[j]).0 != key by {
            assert(second[j] == settings[j]);
        }
        lemma_key_index_is(second, key, at);
        assert(first.push((other, other_value)) =~= second.update(at, (key, value)));
    }
}

/// Merging a list after a put is merging the list and then putting, where
/// the keys of the list are distinct.
pub proof fn lemma_merge_put(
    settings: Seq<Setting>,
    more: Seq<Setting>,
    key: Seq<char>,
    value: Seq<char>,
)
    requires
        distinct_keys(more),
    ensures
        merge(settings, put(more, key, value)) == put(merge(settings, more), key, value),
    decreases more.len(),
{
    if !has_key(more, key) {
        let longer = more.push((key, value));
        assert(longer.drop_last() =~= more);
        assert(longer.last() == (key, value));
    } else {
        lemma_key_index(more, key);
        let at = key_index(more, key);
        let changed = more.update(at, (key, value));
        let front = more.drop_last();
        let last = more.last();
        if at == more.len() - 1 {
            assert(changed.drop_last() =~= front);
            assert(changed.last() == (key, value));
            lemma_put_twice(merge(settings, front), key, last.1, value);
        } else {
            assert(last.0 != key) by {
                assert(more[at].0 != more[more.len() - 1].0);
            }
            assert forall|j: int| 0 <= j < at implies (#[trigger] front[j]).0 != key by {
                assert(front[j] == more[j]);
            }
            assert(front[at] == more[at]);
            lemma_key_index_is(front, key, at);
            assert(changed.drop_last() =~= front.update(at, (key, value)));
            assert(changed.last() == last);
            assert(distinct_keys(front)) by {
                assert forall|i: int, j: int| 0 <= i < j < front.len() implies (
                #[trigger] front[i]).0 != (#[trigger] front[j]).0 by {
                    assert(front[i] == more[i] && front[j] == more[j]);
                }
            }
            lemma_merge_put(settings, front, key, value);
            lemma_merge_keys(settings, front);
            assert(has_key(merge(settings, front), front[at].0));
            lemma_put_swap(merge(settings, front), key, value, last.0, last.1);
        }
    }
}

/// Merging can be done in two steps either way: what `first` and `second`
/// merge to, merged into the settings, is `second` merged into what the
/// settings and `first` merge to.
pub proof fn lemma_merge_in_steps(
    settings: Seq<Setting>,
    first: Seq<Setting>,
    second: Seq<Setting>,
)
    requires
        distinct_keys(first),
    ensures
        merge(settings, merge(first, second)) == merge(merge(settings, first), second),
    decreases second.len(),
{
    if second.len() > 0 {
        let front = second.drop_last();
        let last = second.last();
        lemma_merge_in_steps(settings, first, front);
        lemma_merge_inserts(first, front);
        lemma_merge_put(settings, merge(first, front), last.0, last.1);
    }
}

/// Merging what a list merges to is merging the list: the settings of one
/// directive can be merged by key before they are taken into a record,
/// and the record is the same.
pub proof fn lemma_merge_merged(settings: Seq<Setting>, more: Seq<Setting>)
    ensures
        merge(settings, merge(Seq::empty(), more)) == merge(settings, more),
{
    lemma_merge_in_steps(settings, Seq::empty(), more);
}

/// Sets `key` to `value` in `settings`.
pub fn put_setting(settings: &mut Vec<(String, String)>, key: String, value: String)
    ensures
        final(settings).deep_view() == put(old(settings).deep_view(), key@, value@),
{
    let ghost before = settings.deep_view();
    let mut k: usize = 0;
    while k < settings.len()
        invariant
            k <= settings@.len(),
            before == old(settings).deep_view(),
            settings.deep_view() == before,
            forall|j: int| 0 <= j < k ==> (#[trigger] before[j]).0 != key@,
        decreases settings@.len() - k,
    {
        if settings[k].0 == key {
            proof {
                assert(before[k as int].0 == key@);
                assert(has_key(before, key@));
                let i = key_index(before, key@);
                assert(0 <= i < before.len() && before[i].0 == key@ && forall|j: int|
                    0 <= j < i ==> (#[trigger] before[j]).0 != key@);
                assert(i == k);
            }
            settings.set(k, (key, value));
            assert(settings.deep_view() =~= before.update(k as int, (key@, value@)));
            return;
        }
        assert(before[k as int].0 != key@);
        k += 1;
    }
    settings.push((key, value));
    assert(settings.deep_view() =~= before.push((key@, value@)));
}

/// Puts each setting of `more` into `settings`, in order.
pub fn merge_settings(settings: &mut Vec<(String, String)>, more: Vec<(String, String)>)
    ensures
        final(settings).deep_view() == merge(old(settings).deep_view(), more.deep_view()),
{
    let ghost before = settings.deep_view();
    let ghost all = more.deep_view();
    for pair in it: more
        invariant
            it.seq() == more@,
            all == more.deep_view(),
            settings.deep_view() == merge(before, all.take(it.index())),
    {
        let ghost k = it.index();
        let (key, value) = pair;
        proof {
            assert(all.take(k + 1).drop_last() =~= all.take(k));
            assert(all.take(k + 1).last() == (key@, value@));
        }
        put_setting(settings, key, value);
    }
    assert(all.take(all.len() as int) =~= all);
}

/// The value that `settings` holds for `key`, if any.
pub fn lookup<'a>(settings: &'a Vec<(String, String)>, key: &str) -> (value: Option<&'a String>)
    ensures
        match value {
            Some(value) => as_map(settings.deep_view()).contains_pair(key@, value@),
            None => !as_map(settings.deep_view()).contains_key(key@),
        },
{
    let wanted = key.to_owned();
    let ghost all = settings.deep_view();
    let mut k: usize = 0;
    while k < settings.len()
        invariant
            k <= settings@.len(),
            all == settings.deep_view(),
            wanted@ == key@,
            forall|j: int| 0 <= j < k ==> (#[trigger] all[j]).0 != key@,
        decreases settings@.len() - k,
    {
        if settings[k].0 == wanted {
            proof {
                assert(all[k as int].0 == key@);
                lemma_key_index(all, key@);
                let at = key_index(all, key@);
                if at < k {
                    assert(all[at].0 != key@);
                }
            }
            return Some(&settings[k].1);
        }
        assert(all[k as int].0 != key@);
        k += 1;
    }
    proof {
        if has_key(all, key@) {
            let at = choose|at: int| 0 <= at < all.len() && (#[trigger] all[at]).0 == key@;
            assert(all[at].0 != key@);
        }
    }
    None
}

} // verus!

//! Channel selections.
use crate::text::{lower, split, split_on, texts, to_lower, trim, trimmed};
use vstd::prelude::*;

verus! {

/// The channels that a caller asks for, by their names in small letters; none means all.
#[derive(Debug, Clone)]
pub struct ChannelFilter {
    pub names: Vec<String>,
}

impl View for ChannelFilter {
    type V = Seq<Seq<char>>;

    open spec fn view(&self) -> Seq<Seq<char>> {
        texts(self.names@)
    }
}

/// The different names among comma-separated parts, trimmed and in small letters, in the order
/// in which they come up. Blank parts are no names.
pub open spec fn different_names(parts: Seq<Seq<char>>) -> Seq<Seq<char>>
    decreases parts.len(),
{
    if parts.len() == 0 {
        Seq::empty()
    } else {
        let before = different_names(parts.drop_last());
        let name = lower(trim(parts.last()));
        if name.len() == 0 || before.contains(name) {
            before
        } else {
            before.push(name)
        }
    }
}

/// The names that a filter argument asks for.
pub open spec fn requested_names(value: Option<Seq<char>>) -> Seq<Seq<char>> {
    match value {
        Some(text) => different_names(split(text, ',')),
        None => Seq::empty(),
    }
}

/// Whether a selection takes in a channel.
pub open spec fn selects(wanted: Seq<Seq<char>>, name: Seq<char>) -> bool {
    wanted.len() == 0 || wanted.contains(lower(name))
}

/// The wanted names that are not among those found.
pub open spec fn names_missing(wanted: Seq<Seq<char>>, found: Seq<Seq<char>>) -> Seq<Seq<char>>
    decreases wanted.len(),
{
    if wanted.len() == 0 {
        Seq::empty()
    } else {
        let before = names_missing(wanted.drop_last(), found);
        if has_name(found, wanted.last()) {
            before
        } else {
            before.push(wanted.last())
        }
    }
}

/// Whether one of the names is `key` in small letters.
pub open spec fn has_name(names: Seq<Seq<char>>, key: Seq<char>) -> bool {
    exists|i: int| 0 <= i < names.len() && lower(#[trigger] names[i]) == key
}

proof fn lemma_different_names(parts: Seq<Seq<char>>)
    ensures
        different_names(parts).no_duplicates(),
        forall|name: Seq<char>| #[trigger]
            different_names(parts).contains(name) ==> name.len() > 0 && exists|i: int|
                0 <= i < parts.len() && lower(trim(#[trigger] parts[i])) == name,
        forall|i: int|
            0 <= i < parts.len() && lower(trim(#[trigger] parts[i])).len() > 0
                ==> different_names(parts).contains(lower(trim(parts[i]))),
    decreases parts.len(),
{
    if parts.len() > 0 {
        let front = parts.drop_last();
        let before = different_names(front);
        let all = different_names(parts);
        let name = lower(trim(parts.last()));
        lemma_different_names(front);
        assert forall|n: Seq<char>| #[trigger] all.contains(n) implies n.len() > 0 && exists|
            i: int,
        |
            0 <= i < parts.len() && lower(trim(#[trigger] parts[i])) == n by {
            if before.contains(n) {
                let i = choose|i: int|
                    0 <= i < front.len() && lower(trim(#[trigger] front[i])) == n;
                assert(lower(trim(parts[i])) == n);
            } else {
                assert(lower(trim(parts[parts.len() - 1])) == n);
            }
        }
        assert forall|i: int|
            0 <= i < parts.len() && lower(trim(#[trigger] parts[i])).len() > 0 implies all.contains(
            lower(trim(parts[i])),
        ) by {
            if i < front.len() {
                assert(front[i] == parts[i]);
                assert(before.contains(lower(trim(front[i]))));
                let k = choose|k: int| 0 <= k < before.len() && before[k] == lower(trim(parts[i]));
                assert(all[k] == before[k]);
            } else if !before.contains(name) {
                assert(all[all.len() - 1] == name);
            }
        }
    }
}

/// A filter holds exactly the parts of its argument that are not blank, each once, without
/// regard to case and to white space around them.
pub proof fn law_filter_holds_the_parts(value: Seq<char>, name: Seq<char>)
    ensures
        requested_names(Some(value)).no_duplicates(),
        requested_names(Some(value)).contains(name) <==> name.len() > 0 && exists|i: int|
            0 <= i < split(value, ',').len() && lower(trim(#[trigger] split(value, ',')[i]))
                == name,
{
    lemma_different_names(split(value, ','));
}

/// Whether a list of strings holds a string.
pub fn holds(list: &Vec<String>, wanted: &str) -> (found: bool)
    ensures
        found == texts(list@).contains(wanted@),
{
    let mut i: usize = 0;
    while i < list.len()
        invariant
            i <= list@.len(),
            forall|k: int| 0 <= k < i ==> #[trigger] texts(list@)[k] != wanted@,
        decreases list@.len() - i,
    {
        if *list[i].as_str() == *wanted {
            assert(texts(list@)[i as int] == wanted@);
            return true;
        }
        i = i + 1;
    }
    false
}

/// Whether one of the strings is `key` in small letters.
pub fn holds_ignoring_case(list: &Vec<String>, key: &str) -> (found: bool)
    ensures
        found == has_name(texts(list@), key@),
{
    let mut i: usize = 0;
    while i < list.len()
        invariant
            i <= list@.len(),
            forall|k: int| 0 <= k < i ==> lower(#[trigger] texts(list@)[k]) != key@,
        decreases list@.len() - i,
    {
        if *to_lower(list[i].as_str()).as_str() == *key {
            assert(lower(texts(list@)[i as int]) == key@);
            return true;
        }
        i = i + 1;
    }
    false
}

/// Reads a comma-separated list of channel names.
pub fn parse_channel_filter(value: Option<&str>) -> (filter: ChannelFilter)
    ensures
        filter@ == requested_names(
            match value {
                Some(text) => Some(text@),
                None => None,
            },
        ),
{
    let mut names: Vec<String> = Vec::new();
    assert(texts(names@) =~= Seq::empty());
    if let Some(text) = value {
        let parts = split_on(text, ',');
        let ghost all = texts(parts@);
        let mut i: usize = 0;
        while i < parts.len()
            invariant
                i <= parts@.len(),
                all == texts(parts@),
                texts(names@) == different_names(all.take(i as int)),
            decreases parts@.len() - i,
        {
            assert(all.take(i + 1).drop_last() =~= all.take(i as int));
            let name = to_lower(trimmed(parts[i].as_str()).as_str());
            if !name.as_str().is_empty() && !holds(&names, name.as_str()) {
                let ghost before = names@;
                names.push(name);
                assert(texts(names@) =~= texts(before).push(name@));
            }
            i = i + 1;
        }
        assert(all.take(i as int) =~= all);
    }
    ChannelFilter { names }
}

impl ChannelFilter {
    /// Whether no channel is named, so that all are meant.
    pub fn is_empty(&self) -> (empty: bool)
        ensures
            empty == (self@.len() == 0),
    {
        self.names.len() == 0
    }

    /// Whether a name in small letters is among those named.
    pub fn contains(&self, name: &str) -> (found: bool)
        ensures
            found == self@.contains(name@),
    {
        holds(&self.names, name)
    }

    /// Whether a channel is meant.
    pub fn takes(&self, name: &str) -> (taken: bool)
        ensures
            taken == selects(self@, name@),
    {
        self.is_empty() || self.contains(to_lower(name).as_str())
    }

    /// The named channels that are not among those found, in the order in which they are named.
    pub fn missing(&self, found: &Vec<String>) -> (missing: Vec<String>)
        ensures
            texts(missing@) == names_missing(self@, texts(found@)),
    {
        let mut missing: Vec<String> = Vec::new();
        let mut i: usize = 0;
        assert(texts(missing@) =~= names_missing(self@.take(0), texts(found@)));
        while i < self.names.len()
            invariant
                i <= self.names@.len(),
                texts(missing@) == names_missing(self@.take(i as int), texts(found@)),
            decreases self.names@.len() - i,
        {
            assert(self@.take(i + 1).drop_last() =~= self@.take(i as int));
            if !holds_ignoring_case(found, self.names[i].as_str()) {
                let ghost before = missing@;
                missing.push(self.names[i].clone());
                assert(texts(missing@) =~= texts(before).push(self.names@[i as int]@));
            }
            i = i + 1;
        }
        assert(self@.take(i as int) =~= self@);
        missing
    }
}

} // verus!

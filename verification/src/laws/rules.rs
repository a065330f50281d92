//! What holds of channel maps.
use crate::channel_map::{
    arrow, fields, mapped_conversion, mapped_name, mapped_unit, numbers_in, numbers_on,
    numbers_on_lines, rest_part, rule_line, rule_named, rule_on, rule_parts, rules_on, source_part,
    unmatched_sources, Rule,
};
use crate::filter::has_name;
use crate::laws::text::{law_split_parts_are_joined_again, law_words_are_apart};
use crate::number::{finite, zero};
use crate::samples::map_refusal;
use crate::source::UnitSource;
use crate::text::{
    contains, decimal, find, find_from, join, lemma_find_from, lower, occurs_at, sorted, split,
    trim, words,
};
use vstd::prelude::*;

verus! {

// ---------------------------------------------------------------------------------------
// Which rule applies
// ---------------------------------------------------------------------------------------
/// Whether a rule is the first for a channel.
pub open spec fn is_first_rule(rules: Seq<Rule>, channel: Seq<char>, r: int) -> bool {
    &&& 0 <= r < rules.len()
    &&& lower(rules[r].source) == lower(channel)
    &&& forall|q: int| 0 <= q < r ==> lower((#[trigger] rules[q]).source) != lower(channel)
}

/// Whether the first rule for a channel states a scale and an offset, by their bit patterns.
pub open spec fn is_conversion_for(
    rules: Seq<Rule>,
    channel: Seq<char>,
    scale: u64,
    offset: u64,
) -> bool {
    exists|r: int| #[trigger]
        is_first_rule(rules, channel, r) && rules[r].scale == scale && rules[r].offset == offset
}

/// Whether values of a channel stay as they are: there is no rule, or the first multiplies by
/// one and adds a zero.
pub open spec fn is_left_alone(rules: Seq<Rule>, channel: Seq<char>) -> bool {
    forall|r: int| #[trigger]
        is_first_rule(rules, channel, r) ==> rules[r].scale == 0x3ff0_0000_0000_0000u64 && (
        rules[r].offset == 0 || rules[r].offset == 0x8000_0000_0000_0000u64)
}

/// The rule for a channel is the first that names it.
pub proof fn lemma_rule(rules: Seq<Rule>, channel: Seq<char>)
    ensures
        match rule_named(rules, channel) {
            Some(rule) => exists|r: int| #[trigger]
                is_first_rule(rules, channel, r) && rules[r] == rule,
            None => forall|r: int|
                0 <= r < rules.len() ==> lower((#[trigger] rules[r]).source) != lower(channel),
        },
        forall|r: int|
            is_first_rule(rules, channel, r) ==> rule_named(rules, channel) == Some(rules[r]),
    decreases rules.len(),
{
    if rules.len() > 0 {
        let rest = rules.skip(1);
        lemma_rule(rest, channel);
        if lower(rules[0].source) == lower(channel) {
            assert(is_first_rule(rules, channel, 0));
        } else {
            match rule_named(rest, channel) {
                Some(rule) => {
                    let r = choose|r: int| #[trigger]
                        is_first_rule(rest, channel, r) && rest[r] == rule;
                    assert forall|q: int| 0 <= q < r + 1 implies lower((#[trigger] rules[q]).source)
                        != lower(channel) by {
                        if q > 0 {
                            assert(rest[q - 1] == rules[q]);
                        }
                    }
                    assert(is_first_rule(rules, channel, r + 1));
                },
                None => {
                    assert forall|r: int| 0 <= r < rules.len() implies lower(
                        (#[trigger] rules[r]).source,
                    ) != lower(channel) by {
                        if r > 0 {
                            assert(rest[r - 1] == rules[r]);
                        }
                    }
                },
            }
            assert forall|r: int| is_first_rule(rules, channel, r) implies rule_named(
                rules,
                channel,
            ) == Some(rules[r]) by {
                assert(rest[r - 1] == rules[r]);
                assert forall|q: int| 0 <= q < r - 1 implies lower((#[trigger] rest[q]).source)
                    != lower(channel) by {
                    assert(rest[q] == rules[q + 1]);
                }
                assert(is_first_rule(rest, channel, r - 1));
            }
        }
    }
}

/// Name, unit and values of a channel are those that the first rule for it states, and its own
/// where that rule states none or where there is no rule.
pub proof fn law_the_first_rule_counts(
    rules: Seq<Rule>,
    channel: Seq<char>,
    unit: Seq<char>,
    source: UnitSource,
    r: int,
)
    ensures
        is_first_rule(rules, channel, r) ==> {
            let rule = rules[r];
            &&& rule.target is Some ==> mapped_name(rules, channel) == rule.target->0
            &&& rule.target is None ==> mapped_name(rules, channel) == channel
            &&& rule.unit is Some ==> mapped_unit(rules, channel, unit, source) == (
                rule.unit->0,
                UnitSource::Declared,
            )
            &&& rule.unit is None ==> mapped_unit(rules, channel, unit, source) == (unit, source)
            &&& mapped_conversion(rules, channel) matches Some(conversion) ==> conversion.scale
                == rule.scale && conversion.offset == rule.offset
            &&& mapped_conversion(rules, channel) is None ==> rule.scale
                == 0x3ff0_0000_0000_0000u64 && (rule.offset == 0 || rule.offset
                == 0x8000_0000_0000_0000u64)
        },
        (forall|q: int|
            0 <= q < rules.len() ==> lower((#[trigger] rules[q]).source) != lower(channel)) ==> {
            &&& mapped_name(rules, channel) == channel
            &&& mapped_unit(rules, channel, unit, source) == (unit, source)
            &&& mapped_conversion(rules, channel) is None
        },
{
    lemma_rule(rules, channel);
    if let Some(rule) = rule_named(rules, channel) {
        let q = choose|q: int| #[trigger] is_first_rule(rules, channel, q) && rules[q] == rule;
        assert(lower(rules[q].source) == lower(channel));
    }
}

/// Whether no channel has the name of a rule's source.
pub open spec fn is_unmatched(rule: Rule, available: Seq<Seq<char>>) -> bool {
    forall|i: int| 0 <= i < available.len() ==> lower(#[trigger] available[i]) != lower(rule.source)
}

/// Rules that no channel has a use for are told in their order, all of them and no other.
pub proof fn law_unmatched_rules_are_told(rules: Seq<Rule>, available: Seq<Seq<char>>)
    ensures
        unmatched_sources(rules, available) == rules.filter(
            |rule: Rule| is_unmatched(rule, available),
        ).map_values(|rule: Rule| rule.source),
    decreases rules.len(),
{
    reveal(Seq::filter);
    let stale = |rule: Rule| is_unmatched(rule, available);
    let names = |rule: Rule| rule.source;
    if rules.len() > 0 {
        law_unmatched_rules_are_told(rules.drop_last(), available);
        let rule = rules.last();
        assert(has_name(available, lower(rule.source)) <==> !is_unmatched(rule, available));
        let before = rules.drop_last().filter(stale);
        assert(before.push(rule).map_values(names) =~= before.map_values(names).push(rule.source));
    }
    assert(unmatched_sources(rules, available) =~= rules.filter(stale).map_values(names));
}

/// A map is taken exactly if it could be read and every rule has a channel; otherwise the
/// message says what is wrong with it or names all rules without a channel.
pub proof fn law_refused_maps(map: Result<Seq<Rule>, Seq<char>>, available: Seq<Seq<char>>)
    ensures
        map matches Err(message) ==> map_refusal(map, available) == Some(message),
        map matches Ok(rules) ==> {
            &&& map_refusal(map, available) is None <==> forall|r: int|
                0 <= r < rules.len() ==> !is_unmatched(#[trigger] rules[r], available)
            &&& map_refusal(map, available) matches Some(message) ==> message
                == "channel_map references channel(s) not present in the data: "@ + join(
                sorted(
                    rules.filter(|rule: Rule| is_unmatched(rule, available)).map_values(
                        |rule: Rule| rule.source,
                    ),
                ),
                ", "@,
            )
        },
{
    if let Ok(rules) = map {
        law_unmatched_rules_are_told(rules, available);
        let stale = |rule: Rule| is_unmatched(rule, available);
        lemma_filter_empty(rules, stale);
        assert(unmatched_sources(rules, available).len() == rules.filter(stale).len());
    }
}

proof fn lemma_filter_empty(rules: Seq<Rule>, pred: spec_fn(Rule) -> bool)
    ensures
        rules.filter(pred).len() == 0 <==> forall|r: int|
            0 <= r < rules.len() ==> !pred(#[trigger] rules[r]),
    decreases rules.len(),
{
    reveal(Seq::filter);
    if rules.len() > 0 {
        let front = rules.drop_last();
        lemma_filter_empty(front, pred);
        assert(rules.last() == rules[rules.len() - 1]);
        if forall|r: int| 0 <= r < rules.len() ==> !pred(#[trigger] rules[r]) {
            assert forall|r: int| 0 <= r < front.len() implies !pred(#[trigger] front[r]) by {
                assert(front[r] == rules[r]);
            }
        }
        if rules.filter(pred).len() == 0 {
            assert forall|r: int| 0 <= r < rules.len() implies !pred(#[trigger] rules[r]) by {
                if r < front.len() {
                    assert(front[r] == rules[r]);
                }
            }
        }
    }
}

// ---------------------------------------------------------------------------------------
// What a line says
// ---------------------------------------------------------------------------------------
/// What follows a number sign on a line plays no part, nor does white space around the rule.
pub proof fn law_comments_are_left_out(core: Seq<char>, comment: Seq<char>)
    requires
        !core.contains('#'),
    ensures
        rule_line(core + seq!['#'] + comment) == trim(core),
        rule_line(core) == trim(core),
{
    let raw = core + seq!['#'] + comment;
    lemma_first_part(core, Seq::empty());
    assert(core + Seq::<char>::empty() =~= core);
    lemma_first_part(core, seq!['#'] + comment);
    assert(core + (seq!['#'] + comment) =~= raw);
}

proof fn lemma_first_part(core: Seq<char>, rest: Seq<char>)
    requires
        !core.contains('#'),
        rest.len() > 0 ==> rest[0] == '#',
    ensures
        split(core + rest, '#').len() > 0,
        split(core + rest, '#')[0] == core,
        rest.len() > 0 ==> split(core + rest, '#').len() > 1,
    decreases core.len() + rest.len(),
{
    let all = core + rest;
    if rest.len() > 0 {
        lemma_first_part(core, rest.drop_last());
        assert(all.drop_last() =~= core + rest.drop_last());
        assert(all.last() == rest.last());
    } else if core.len() > 0 {
        let less = core.drop_last();
        assert(!less.contains('#')) by {
            if less.contains('#') {
                let i = choose|i: int| 0 <= i < less.len() && less[i] == '#';
                assert(core[i] == '#');
            }
        }
        lemma_first_part(less, Seq::empty());
        assert(less + Seq::<char>::empty() =~= less);
        assert(all =~= core);
        assert(core.last() != '#') by {
            assert(core[core.len() - 1] == core.last());
        }
        law_split_parts_are_joined_again(less, '#');
        let parts = split(less, '#');
        if parts.len() > 1 {
            lemma_join_has(parts, '#');
        }
        assert(less.push(core.last()) =~= core);
    } else {
        assert(all =~= Seq::empty());
    }
}

proof fn lemma_join_has(parts: Seq<Seq<char>>, separator: char)
    requires
        parts.len() > 1,
    ensures
        join(parts, seq![separator]).contains(separator),
{
    let sep = seq![separator];
    let head = join(parts.drop_last(), sep);
    let all = join(parts, sep);
    assert(all == head + sep + parts.last());
    assert(all[head.len() as int] == separator);
}

/// The source of a rule stands before the first arrow and the rest after it; a line without an
/// arrow is a source alone.
pub proof fn law_the_first_arrow_parts_a_rule(before: Seq<char>, after: Seq<char>)
    requires
        !contains(before, seq!['-', '>']),
    ensures
        source_part(before + seq!['-', '>'] + after) == trim(before),
        rest_part(before + seq!['-', '>'] + after) == trim(after),
        source_part(before) == trim(before),
        rest_part(before) == Seq::<char>::empty(),
{
    let mark = seq!['-', '>'];
    let line = before + mark + after;
    let n = before.len() as int;
    lemma_find_from(before, arrow(), 0);
    assert(mark =~= arrow());
    if let Some(at) = find(before, arrow()) {
        assert(occurs_at(before, mark, at));
    }
    lemma_find_from(line, arrow(), 0);
    assert(line.subrange(n, n + 2) =~= mark);
    assert(occurs_at(line, mark, n));
    let at = find(line, arrow())->0;
    if at < n {
        let found = line.subrange(at, at + 2);
        assert(found == mark);
        assert(found[0] == '-' && found[1] == '>');
        assert(line[at + 1] == '>');
        if at + 1 < n {
            assert(before.subrange(at, at + 2) =~= mark);
            assert(occurs_at(before, mark, at));
        } else {
            assert(line[n] == '-');
        }
    }
    assert(line.take(n) =~= before);
    assert(line.skip(n + 2) =~= after);
}

/// The unit of a rule stands in the first brackets, without the white space around it, and the
/// words before and after them are the rest; a rule without brackets states no unit, one whose
/// bracket does not close is wrong, and so is one without a source.
pub proof fn law_units_stand_in_brackets(
    line: Seq<char>,
    before: Seq<char>,
    unit: Seq<char>,
    after: Seq<char>,
)
    ensures
        source_part(line).len() == 0 ==> rule_parts(line) == Err::<
            crate::channel_map::Parts,
            Seq<char>,
        >("missing source channel name"@),
        source_part(line).len() > 0 && !rest_part(line).contains('[') ==> {
            &&& rule_parts(line) matches Ok(parts)
            &&& parts.source == source_part(line)
            &&& parts.unit is None
            &&& parts.words == words(rest_part(line))
        },
        source_part(line).len() > 0 && rest_part(line) == before + seq!['['] + after
            && !before.contains('[') && !after.contains(']') ==> rule_parts(line) == Err::<
            crate::channel_map::Parts,
            Seq<char>,
        >("unterminated '[' in unit field"@),
        source_part(line).len() > 0 && rest_part(line) == before + seq!['['] + unit + seq![']']
            + after && !before.contains('[') && !unit.contains(']') ==> {
            &&& rule_parts(line) matches Ok(parts)
            &&& parts.source == source_part(line)
            &&& parts.unit == Some(trim(unit))
            &&& parts.words == words(before) + words(after)
        },
{
    let rest = rest_part(line);
    let n = before.len() as int;
    lemma_find_char(rest, '[', 0);
    if rest == before + seq!['['] + after && !before.contains('[') && !after.contains(']') {
        assert(rest[n] == '[');
        lemma_char_found(rest, before, '[');
        lemma_find_char(rest, ']', n);
        if let Some(close) = find_from(rest, seq![']'], n) {
            assert(rest[close] == ']');
            assert(after[close - n - 1] == ']');
        }
    }
    if rest == before + seq!['['] + unit + seq![']'] + after && !before.contains('[')
        && !unit.contains(']') {
        let m = n + 1 + unit.len();
        assert(rest[n] == '[');
        assert(rest[m] == ']');
        lemma_char_found(rest, before, '[');
        lemma_find_char(rest, ']', n);
        let close = find_from(rest, seq![']'], n)->0;
        if close < m {
            if close > n {
                assert(unit[close - n - 1] == ']');
            }
        }
        assert(close == m);
        assert(rest.subrange(n + 1, close) =~= unit);
        assert(rest.take(n) =~= before);
        assert(rest.skip(close + 1) =~= after);
        law_words_are_apart(before, seq![' ']);
        law_words_are_apart(before + seq![' '], after);
        crate::laws::text::law_a_word_is_solid(seq![' ']);
        assert(words(before) + words(seq![' ']) =~= words(before));
    }
}

proof fn lemma_char_found(s: Seq<char>, before: Seq<char>, c: char)
    requires
        !before.contains(c),
        before.len() < s.len(),
        s.take(before.len() as int) =~= before,
        s[before.len() as int] == c,
    ensures
        find(s, seq![c]) == Some(before.len() as int),
{
    lemma_find_char(s, c, 0);
    let at = find(s, seq![c])->0;
    if at < before.len() {
        assert(before[at] == s[at]);
    }
}

proof fn lemma_find_char(s: Seq<char>, c: char, from: int)
    requires
        0 <= from,
    ensures
        match find_from(s, seq![c], from) {
            Some(at) => from <= at < s.len() && s[at] == c && forall|k: int|
                from <= k < at ==> #[trigger] s[k] != c,
            None => forall|k: int| from <= k < s.len() ==> #[trigger] s[k] != c,
        },
{
    lemma_find_from(s, seq![c], from);
    assert forall|k: int| 0 <= k < s.len() implies (occurs_at(s, seq![c], k) <==> #[trigger] s[k]
        == c) by {
        assert(s.subrange(k, k + 1) =~= seq![s[k]]);
        if s[k] != c {
            assert(seq![s[k]][0] != seq![c][0]);
        }
    }
}

/// Whether a word states a number: it starts with an asterisk or a plus sign.
pub open spec fn is_number_word(word: Seq<char>) -> bool {
    word.len() > 0 && (word[0] == '*' || word[0] == '+')
}

/// The numbers of a rule are all its words that start with an asterisk or a plus sign, without
/// it and in their order.
pub proof fn law_numbers_are_marked(list: Seq<Seq<char>>)
    ensures
        numbers_in(list) == list.filter(|word: Seq<char>| is_number_word(word)).map_values(
            |word: Seq<char>| word.skip(1),
        ),
    decreases list.len(),
{
    reveal(Seq::filter);
    let marked = |word: Seq<char>| is_number_word(word);
    let bare = |word: Seq<char>| word.skip(1);
    if list.len() > 0 {
        law_numbers_are_marked(list.drop_last());
        let before = list.drop_last().filter(marked);
        let word = list.last();
        assert(before.push(word).map_values(bare) =~= before.map_values(bare).push(word.skip(1)));
    }
    assert(numbers_in(list) =~= list.filter(marked).map_values(bare));
}

/// Whether a word is the last of those that start with a mark.
pub open spec fn is_last_marked(list: Seq<Seq<char>>, mark: char, i: int) -> bool {
    &&& 0 <= i < list.len()
    &&& list[i].len() > 0
    &&& list[i][0] == mark
    &&& forall|k: int|
        i < k < list.len() ==> !((#[trigger] list[k]).len() > 0 && list[k][0] == mark)
}

/// Whether no word starts with a mark.
pub open spec fn has_no_marked(list: Seq<Seq<char>>, mark: char) -> bool {
    forall|k: int| 0 <= k < list.len() ==> !((#[trigger] list[k]).len() > 0 && list[k][0] == mark)
}

/// What the number in a word was read as.
pub open spec fn reading_of(
    list: Seq<Seq<char>>,
    readings: Seq<Option<u64>>,
    i: int,
) -> Option<u64> {
    readings[numbers_in(list.take(i)).len() as int]
}

proof fn lemma_scale(list: Seq<Seq<char>>, readings: Seq<Option<u64>>, i: int)
    ensures
        fields(list, readings) matches Ok(stated) ==> {
            &&& is_last_marked(list, '*', i) ==> reading_of(list, readings, i) == Some(
                stated.scale,
            )
            &&& has_no_marked(list, '*') ==> stated.scale == 0x3ff0_0000_0000_0000u64
        },
    decreases list.len(),
{
    if list.len() > 0 {
        let front = list.drop_last();
        let last = list.len() - 1;
        assert(list[last] == list.last());
        assert(list.take(last) =~= front);
        lemma_scale(front, readings, i);
        if i < last && is_last_marked(list, '*', i) {
            assert(front[i] == list[i]);
            assert forall|k: int| i < k < front.len() implies !((#[trigger] front[k]).len() > 0
                && front[k][0] == '*') by {
                assert(front[k] == list[k]);
            }
            assert(is_last_marked(front, '*', i));
            assert(front.take(i) =~= list.take(i));
            assert(!(list[last].len() > 0 && list[last][0] == '*'));
        }
        if has_no_marked(list, '*') {
            assert forall|k: int| 0 <= k < front.len() implies !((#[trigger] front[k]).len() > 0
                && front[k][0] == '*') by {
                assert(front[k] == list[k]);
            }
        }
    }
}

proof fn lemma_offset(list: Seq<Seq<char>>, readings: Seq<Option<u64>>, i: int)
    ensures
        fields(list, readings) matches Ok(stated) ==> {
            &&& is_last_marked(list, '+', i) ==> reading_of(list, readings, i) == Some(
                stated.offset,
            )
            &&& has_no_marked(list, '+') ==> stated.offset == 0
        },
    decreases list.len(),
{
    if list.len() > 0 {
        let front = list.drop_last();
        let last = list.len() - 1;
        assert(list[last] == list.last());
        assert(list.take(last) =~= front);
        lemma_offset(front, readings, i);
        if i < last && is_last_marked(list, '+', i) {
            assert(front[i] == list[i]);
            assert forall|k: int| i < k < front.len() implies !((#[trigger] front[k]).len() > 0
                && front[k][0] == '+') by {
                assert(front[k] == list[k]);
            }
            assert(is_last_marked(front, '+', i));
            assert(front.take(i) =~= list.take(i));
            assert(!(list[last].len() > 0 && list[last][0] == '+'));
        }
        if has_no_marked(list, '+') {
            assert forall|k: int| 0 <= k < front.len() implies !((#[trigger] front[k]).len() > 0
                && front[k][0] == '+') by {
                assert(front[k] == list[k]);
            }
        }
    }
}

proof fn lemma_target(list: Seq<Seq<char>>, readings: Seq<Option<u64>>)
    ensures
        fields(list, readings) matches Ok(stated) ==> stated.target == list.filter(
            |word: Seq<char>| !is_number_word(word),
        ),
    decreases list.len(),
{
    reveal(Seq::filter);
    if list.len() > 0 {
        let front = list.drop_last();
        let last = list.len() - 1;
        assert(list[last] == list.last());
        assert(list.take(last) =~= front);
        lemma_target(front, readings);
    }
}

/// Whether all numbers among words could be read.
pub open spec fn all_read(list: Seq<Seq<char>>, readings: Seq<Option<u64>>) -> bool {
    forall|k: int|
        0 <= k < list.len() && is_number_word(#[trigger] list[k]) ==> reading_of(
            list,
            readings,
            k,
        ) is Some
}

proof fn lemma_all_read(list: Seq<Seq<char>>, readings: Seq<Option<u64>>)
    ensures
        fields(list, readings) is Ok <==> all_read(list, readings),
    decreases list.len(),
{
    if list.len() > 0 {
        let front = list.drop_last();
        let last = list.len() - 1;
        assert(list[last] == list.last());
        assert(list.take(last) =~= front);
        lemma_all_read(front, readings);
        assert(reading_of(list, readings, last) == readings[numbers_in(front).len() as int]);
        if all_read(list, readings) {
            assert forall|k: int|
                0 <= k < front.len() && is_number_word(#[trigger] front[k]) implies reading_of(
                front,
                readings,
                k,
            ) is Some by {
                assert(front[k] == list[k]);
                assert(front.take(k) =~= list.take(k));
            }
            assert(all_read(front, readings));
        }
        if all_read(front, readings) && (is_number_word(list[last]) ==> reading_of(
            list,
            readings,
            last,
        ) is Some) {
            assert forall|k: int|
                0 <= k < list.len() && is_number_word(#[trigger] list[k]) implies reading_of(
                list,
                readings,
                k,
            ) is Some by {
                if k < last {
                    assert(front[k] == list[k]);
                    assert(front.take(k) =~= list.take(k));
                }
            }
        }
    }
}

/// The words of a rule state its target, which is all that are no numbers, its scale, which is
/// the last number behind an asterisk and otherwise one, and its offset, which is the last
/// number behind a plus sign and otherwise zero.
pub proof fn law_words_state_target_scale_and_offset(
    list: Seq<Seq<char>>,
    readings: Seq<Option<u64>>,
    i: int,
)
    ensures
        fields(list, readings) matches Ok(stated) ==> {
            &&& stated.target == list.filter(|word: Seq<char>| !is_number_word(word))
            &&& is_last_marked(list, '*', i) ==> reading_of(list, readings, i) == Some(stated.scale)
            &&& has_no_marked(list, '*') ==> stated.scale == 0x3ff0_0000_0000_0000u64
            &&& is_last_marked(list, '+', i) ==> reading_of(list, readings, i) == Some(
                stated.offset,
            )
            &&& has_no_marked(list, '+') ==> stated.offset == 0
        },
        fields(list, readings) is Ok <==> all_read(list, readings),
{
    lemma_target(list, readings);
    lemma_scale(list, readings, i);
    lemma_offset(list, readings, i);
    lemma_all_read(list, readings);
}

/// A line is a rule exactly if its parts can be told, its numbers could be read and are finite,
/// and its scale is not zero; the rule is made of what the line states.
pub proof fn law_what_a_rule_is(line: Seq<char>, readings: Seq<Option<u64>>)
    ensures
        match rule_on(line, readings) {
            Ok(rule) => {
                &&& rule_parts(line) matches Ok(parts)
                &&& fields(parts.words, readings) matches Ok(stated)
                &&& rule.source == source_part(line)
                &&& rule.unit == parts.unit
                &&& rule.scale == stated.scale
                &&& rule.offset == stated.offset
                &&& stated.target.len() == 0 ==> rule.target is None
                &&& stated.target.len() > 0 ==> rule.target == Some(
                    join(stated.target, seq![' ']),
                )
                &&& is_number(rule.scale) && is_number(rule.offset)
                &&& rule.scale != 0 && rule.scale != 0x8000_0000_0000_0000u64
            },
            Err(message) => match rule_parts(line) {
                Err(wrong) => message == wrong,
                Ok(parts) => match fields(parts.words, readings) {
                    Err(wrong) => message == wrong,
                    Ok(stated) => {
                        ||| !(is_number(stated.scale) && is_number(stated.offset)) && message
                            == "scale and offset must be finite"@
                        ||| (stated.scale == 0 || stated.scale == 0x8000_0000_0000_0000u64)
                            && message == "scale of 0 would discard the channel's data"@
                    },
                },
            },
        },
{
    if let Ok(parts) = rule_parts(line) {
        if let Ok(stated) = fields(parts.words, readings) {
            lemma_number(stated.scale);
            lemma_number(stated.offset);
        }
    }
}

/// Whether the bits of a number stand for a finite one: without the sign they are less than
/// those of infinity.
pub open spec fn is_number(bits: u64) -> bool {
    bits < 0x7ff0_0000_0000_0000u64 || 0x8000_0000_0000_0000u64 <= bits < 0xfff0_0000_0000_0000u64
}

proof fn lemma_number(bits: u64)
    ensures
        finite(bits) <==> is_number(bits),
{
    assert((bits / 0x10_0000_0000_0000) % 0x800 != 0x7ff <==> (bits < 0x7ff0_0000_0000_0000u64 || (
    0x8000_0000_0000_0000u64 <= bits && bits < 0xfff0_0000_0000_0000u64))) by (bit_vector);
}

/// What counts as finite and as zero.
pub proof fn law_finite_and_zero(bits: u64)
    ensures
        finite(bits) <==> is_number(bits),
        zero(bits) <==> bits == 0 || bits == 0x8000_0000_0000_0000u64,
{
    lemma_number(bits);
}

// ---------------------------------------------------------------------------------------
// What a text says
// ---------------------------------------------------------------------------------------
/// The numbers of a text are those of its lines, one line after the other: of a line whose parts
/// can be told those that its words state, and none of any other.
pub proof fn law_numbers_of_a_text(lines: Seq<Seq<char>>, raw: Seq<char>)
    ensures
        numbers_on_lines(Seq::empty()).len() == 0,
        ({
            let line = rule_line(raw);
            let all = numbers_on_lines(lines.push(raw));
            let before = numbers_on_lines(lines);
            &&& rule_parts(line) matches Ok(parts) ==> all == before + numbers_in(parts.words)
            &&& rule_parts(line) is Err ==> all == before
        }),
{
    assert(lines.push(raw).drop_last() =~= lines);
    let line = rule_line(raw);
    let before = numbers_on_lines(lines);
    assert(before + Seq::<Seq<char>>::empty() =~= before);
    if line.len() == 0 {
        lemma_find_from(line, arrow(), 0);
        assert(trim(line) =~= line);
        assert(source_part(line).len() == 0);
    }
}

/// What the numbers on a line were read as.
pub open spec fn line_readings(
    lines: Seq<Seq<char>>,
    readings: Seq<Option<u64>>,
    p: int,
) -> Seq<Option<u64>> {
    let from = numbers_on_lines(lines.take(p)).len() as int;
    readings.subrange(from, from + numbers_on(rule_line(lines[p])).len())
}

/// The rules of a text are read line by line: a line that is blank but for a comment adds none,
/// every other adds the rule that it is, and the first that is no rule, or that is a second
/// rule for its channel, makes the whole text wrong. The message tells which line it was.
pub proof fn law_rules_are_read_line_by_line(
    lines: Seq<Seq<char>>,
    raw: Seq<char>,
    readings: Seq<Option<u64>>,
)
    ensures
        rules_on(Seq::empty(), readings) == Ok::<Seq<Rule>, Seq<char>>(Seq::empty()),
        ({
            let all = lines.push(raw);
            let number = decimal((lines.len() + 1) as nat);
            let line = rule_line(raw);
            match rules_on(lines, readings) {
                Err(message) => rules_on(all, readings) == Err::<Seq<Rule>, Seq<char>>(message),
                Ok(before) => if line.len() == 0 {
                    rules_on(all, readings) == Ok::<Seq<Rule>, Seq<char>>(before)
                } else {
                    match rule_on(line, line_readings(all, readings, lines.len() as int)) {
                        Err(wrong) => rules_on(all, readings) == Err::<Seq<Rule>, Seq<char>>(
                            "channel_map line "@ + number + ": "@ + wrong,
                        ),
                        Ok(rule) => if exists|i: int|
                            0 <= i < before.len() && lower((#[trigger] before[i]).source) == lower(
                                rule.source,
                            ) {
                            rules_on(all, readings) == Err::<Seq<Rule>, Seq<char>>(
                                "channel_map line "@ + number + ": "@ + ("duplicate rule for '"@
                                    + rule.source + "'"@),
                            )
                        } else {
                            rules_on(all, readings) == Ok::<Seq<Rule>, Seq<char>>(
                                before.push(rule),
                            )
                        },
                    }
                },
            }
        }),
{
    let all = lines.push(raw);
    assert(all.drop_last() =~= lines);
    assert(all.take(lines.len() as int) =~= lines);
}

} // verus!

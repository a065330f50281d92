//! Deliberate channel renaming and unit conversion.
//!
//! Recordings are reported exactly as they are. A caller who wants other names or units states
//! them as rules, one to a line:
//!
//! ```text
//! # comment
//! source_channel -> target_name [unit] [*scale] [+offset]
//! ```
//!
//! Only the source channel is required. A value becomes `value * scale + offset`.
//!
//! Scales and offsets are written as decimal numbers. The caller reads them: `number_fields`
//! hands out their texts, and `ChannelMap::parse` takes the bit pattern of each, or `None` for
//! a text that is no number.
use crate::filter::{has_name, holds_ignoring_case};
use crate::number::{finite, is_finite, is_zero, zero, Affine, ONE, ZERO};
use crate::source::UnitSource;
use crate::text::{
    chars_of, contains, contains_text, decimal, decimal_text, find, find_chars, find_from, join,
    join_all, lower, optional_text, sorted, sorted_list, split, split_on, split_words, string_of,
    texts, to_lower, trim, trim_range, trimmed, words,
};
use vstd::prelude::*;

verus! {

/// One channel's rename, conversion, or both. Scale and offset are bit patterns.
#[derive(Debug, Clone)]
pub struct ChannelRule {
    /// The name of the channel; case does not matter.
    pub source: String,
    /// The name to report instead.
    pub target: Option<String>,
    /// The unit to report instead.
    pub unit: Option<String>,
    /// What every sample is multiplied by.
    pub scale: u64,
    /// What is added after that.
    pub offset: u64,
}

/// What a rule says.
#[verifier::ext_equal]
pub struct Rule {
    pub source: Seq<char>,
    pub target: Option<Seq<char>>,
    pub unit: Option<Seq<char>>,
    pub scale: u64,
    pub offset: u64,
}

impl View for ChannelRule {
    type V = Rule;

    open spec fn view(&self) -> Rule {
        Rule {
            source: self.source@,
            target: optional_text(self.target),
            unit: optional_text(self.unit),
            scale: self.scale,
            offset: self.offset,
        }
    }
}

impl Rule {
    /// The conversion of sample values.
    pub open spec fn conversion(self) -> Affine {
        Affine { scale: self.scale, offset: self.offset }
    }
}

/// A set of rules, at most one for each channel.
#[derive(Debug, Clone)]
pub struct ChannelMap {
    pub rules: Vec<ChannelRule>,
}

/// What a list of rules says.
pub open spec fn rules_of(rules: Seq<ChannelRule>) -> Seq<Rule> {
    Seq::new(rules.len(), |i: int| rules[i]@)
}

impl View for ChannelMap {
    type V = Seq<Rule>;

    open spec fn view(&self) -> Seq<Rule> {
        rules_of(self.rules@)
    }
}

// ---------------------------------------------------------------------------------------
// Looking rules up
// ---------------------------------------------------------------------------------------
/// The first rule for a channel.
pub open spec fn rule_named(rules: Seq<Rule>, channel: Seq<char>) -> Option<Rule>
    decreases rules.len(),
{
    if rules.len() == 0 {
        None
    } else if lower(rules[0].source) == lower(channel) {
        Some(rules[0])
    } else {
        rule_named(rules.skip(1), channel)
    }
}

/// The name under which a channel is reported.
pub open spec fn mapped_name(rules: Seq<Rule>, channel: Seq<char>) -> Seq<char> {
    match rule_named(rules, channel) {
        Some(rule) => match rule.target {
            Some(target) => target,
            None => channel,
        },
        None => channel,
    }
}

/// The unit that is reported for a channel, and where it comes from.
pub open spec fn mapped_unit(
    rules: Seq<Rule>,
    channel: Seq<char>,
    unit: Seq<char>,
    source: UnitSource,
) -> (Seq<char>, UnitSource) {
    match rule_named(rules, channel) {
        Some(rule) => match rule.unit {
            Some(mapped) => (mapped, UnitSource::Declared),
            None => (unit, source),
        },
        None => (unit, source),
    }
}

/// The conversion of a channel's samples, if they change.
pub open spec fn mapped_conversion(rules: Seq<Rule>, channel: Seq<char>) -> Option<Affine> {
    match rule_named(rules, channel) {
        Some(rule) => if rule.conversion().changes_nothing() {
            None
        } else {
            Some(rule.conversion())
        },
        None => None,
    }
}

/// The sources of the rules that no available channel answers to.
pub open spec fn unmatched_sources(rules: Seq<Rule>, available: Seq<Seq<char>>) -> Seq<Seq<char>>
    decreases rules.len(),
{
    if rules.len() == 0 {
        Seq::empty()
    } else {
        let before = unmatched_sources(rules.drop_last(), available);
        if has_name(available, lower(rules.last().source)) {
            before
        } else {
            before.push(rules.last().source)
        }
    }
}

// ---------------------------------------------------------------------------------------
// Reading rules
// ---------------------------------------------------------------------------------------
/// What stands on a line: comment and white space around it are left out.
pub open spec fn rule_line(raw: Seq<char>) -> Seq<char> {
    trim(split(raw, '#')[0])
}

/// The mark between the source channel and the rest.
pub open spec fn arrow() -> Seq<char> {
    seq!['-', '>']
}

/// What stands before the arrow.
pub open spec fn source_part(line: Seq<char>) -> Seq<char> {
    match find(line, arrow()) {
        Some(at) => trim(line.take(at)),
        None => trim(line),
    }
}

/// What stands after the arrow.
pub open spec fn rest_part(line: Seq<char>) -> Seq<char> {
    match find(line, arrow()) {
        Some(at) => trim(line.skip(at + 2)),
        None => Seq::empty(),
    }
}

/// The parts of a rule: its source, its unit, and the words that are left.
#[verifier::ext_equal]
pub struct Parts {
    pub source: Seq<char>,
    pub unit: Option<Seq<char>>,
    pub words: Seq<Seq<char>>,
}

/// The parts of a rule, or what is wrong with it. The unit stands in brackets, so that names
/// may hold spaces.
pub open spec fn rule_parts(line: Seq<char>) -> Result<Parts, Seq<char>> {
    let source = source_part(line);
    let rest = rest_part(line);
    if source.len() == 0 {
        Err("missing source channel name"@)
    } else {
        match find(rest, seq!['[']) {
            None => Ok(Parts { source, unit: None, words: words(rest) }),
            Some(open) => match find_from(rest, seq![']'], open) {
                None => Err("unterminated '[' in unit field"@),
                Some(close) => Ok(
                    Parts {
                        source,
                        unit: Some(trim(rest.subrange(open + 1, close))),
                        words: words(rest.take(open) + seq![' '] + rest.skip(close + 1)),
                    },
                ),
            },
        }
    }
}

/// Whether a word states a scale.
pub open spec fn states_scale(word: Seq<char>) -> bool {
    word.len() > 0 && word[0] == '*'
}

/// Whether a word states an offset.
pub open spec fn states_offset(word: Seq<char>) -> bool {
    word.len() > 0 && word[0] == '+'
}

/// The numbers that words state, as text.
pub open spec fn numbers_in(words: Seq<Seq<char>>) -> Seq<Seq<char>>
    decreases words.len(),
{
    if words.len() == 0 {
        Seq::empty()
    } else {
        let before = numbers_in(words.drop_last());
        if states_scale(words.last()) || states_offset(words.last()) {
            before.push(words.last().skip(1))
        } else {
            before
        }
    }
}

/// The numbers that a rule states, as text; none where its parts cannot be told apart.
pub open spec fn numbers_on(line: Seq<char>) -> Seq<Seq<char>> {
    if line.len() == 0 {
        Seq::empty()
    } else {
        match rule_parts(line) {
            Ok(parts) => numbers_in(parts.words),
            Err(_) => Seq::empty(),
        }
    }
}

/// The numbers that the rules on some lines state, as text.
pub open spec fn numbers_on_lines(lines: Seq<Seq<char>>) -> Seq<Seq<char>>
    decreases lines.len(),
{
    if lines.len() == 0 {
        Seq::empty()
    } else {
        numbers_on_lines(lines.drop_last()) + numbers_on(rule_line(lines.last()))
    }
}

/// What the words of a rule state: the target's words and the last scale and offset.
#[verifier::ext_equal]
pub struct Fields {
    pub target: Seq<Seq<char>>,
    pub scale: u64,
    pub offset: u64,
}

/// What words state, given what each number among them was read as.
pub open spec fn fields(words: Seq<Seq<char>>, readings: Seq<Option<u64>>) -> Result<
    Fields,
    Seq<char>,
>
    decreases words.len(),
{
    if words.len() == 0 {
        Ok(Fields { target: Seq::empty(), scale: ONE, offset: ZERO })
    } else {
        let word = words.last();
        let reading = readings[numbers_in(words.drop_last()).len() as int];
        match fields(words.drop_last(), readings) {
            Err(message) => Err(message),
            Ok(before) => if states_scale(word) {
                match reading {
                    Some(scale) => Ok(Fields { scale, ..before }),
                    None => Err("invalid scale '"@ + word.skip(1) + "'"@),
                }
            } else if states_offset(word) {
                match reading {
                    Some(offset) => Ok(Fields { offset, ..before }),
                    None => Err("invalid offset '"@ + word.skip(1) + "'"@),
                }
            } else {
                Ok(Fields { target: before.target.push(word), ..before })
            },
        }
    }
}

/// The rule on a line, or what is wrong with it.
pub open spec fn rule_on(line: Seq<char>, readings: Seq<Option<u64>>) -> Result<Rule, Seq<char>> {
    match rule_parts(line) {
        Err(message) => Err(message),
        Ok(parts) => match fields(parts.words, readings) {
            Err(message) => Err(message),
            Ok(stated) => if !finite(stated.scale) || !finite(stated.offset) {
                Err("scale and offset must be finite"@)
            } else if zero(stated.scale) {
                Err("scale of 0 would discard the channel's data"@)
            } else {
                Ok(
                    Rule {
                        source: parts.source,
                        target: if stated.target.len() == 0 {
                            None
                        } else {
                            Some(join(stated.target, seq![' ']))
                        },
                        unit: parts.unit,
                        scale: stated.scale,
                        offset: stated.offset,
                    },
                )
            },
        },
    }
}

/// The readings of the numbers on the last of some lines.
pub open spec fn readings_on_last(
    lines: Seq<Seq<char>>,
    readings: Seq<Option<u64>>,
) -> Seq<Option<u64>> {
    readings.subrange(
        numbers_on_lines(lines.drop_last()).len() as int,
        numbers_on_lines(lines).len() as int,
    )
}

/// A message about a line.
pub open spec fn about_line(number: nat, message: Seq<char>) -> Seq<char> {
    "channel_map line "@ + decimal(number) + ": "@ + message
}

/// Whether there is a rule for a channel.
pub open spec fn has_rule(rules: Seq<Rule>, channel: Seq<char>) -> bool {
    exists|i: int| 0 <= i < rules.len() && lower((#[trigger] rules[i]).source) == lower(channel)
}

/// The rules on some lines, or what is wrong with the first line that is wrong. No line is
/// skipped but for blank ones: a rule that goes missing would mean data left unconverted.
pub open spec fn rules_on(lines: Seq<Seq<char>>, readings: Seq<Option<u64>>) -> Result<
    Seq<Rule>,
    Seq<char>,
>
    decreases lines.len(),
{
    if lines.len() == 0 {
        Ok(Seq::empty())
    } else {
        let line = rule_line(lines.last());
        match rules_on(lines.drop_last(), readings) {
            Err(message) => Err(message),
            Ok(before) => if line.len() == 0 {
                Ok(before)
            } else {
                match rule_on(line, readings_on_last(lines, readings)) {
                    Err(message) => Err(about_line(lines.len(), message)),
                    Ok(rule) => if has_rule(before, rule.source) {
                        Err(
                            about_line(
                                lines.len(),
                                "duplicate rule for '"@ + rule.source + "'"@,
                            ),
                        )
                    } else {
                        Ok(before.push(rule))
                    },
                }
            },
        }
    }
}

/// The lines that hold a rule.
pub open spec fn rule_lines(lines: Seq<Seq<char>>) -> Seq<Seq<char>>
    decreases lines.len(),
{
    if lines.len() == 0 {
        Seq::empty()
    } else {
        let before = rule_lines(lines.drop_last());
        if rule_line(lines.last()).len() == 0 {
            before
        } else {
            before.push(rule_line(lines.last()))
        }
    }
}

// ---------------------------------------------------------------------------------------
// Laws
// ---------------------------------------------------------------------------------------
/// Rules that were read have different sources, whatever the case of their letters.
pub proof fn law_one_rule_for_a_channel(lines: Seq<Seq<char>>, readings: Seq<Option<u64>>)
    requires
        rules_on(lines, readings) is Ok,
    ensures
        forall|i: int, j: int|
            0 <= i < j < rules_on(lines, readings)->Ok_0.len() ==> lower(
                (#[trigger] rules_on(lines, readings)->Ok_0[i]).source,
            ) != lower((#[trigger] rules_on(lines, readings)->Ok_0[j]).source),
    decreases lines.len(),
{
    if lines.len() > 0 {
        law_one_rule_for_a_channel(lines.drop_last(), readings);
    }
}

/// No line is dropped: there is a rule for the source on every line that is not blank, in the
/// order of the lines, and there are no other rules.
pub proof fn law_no_line_is_dropped(lines: Seq<Seq<char>>, readings: Seq<Option<u64>>)
    requires
        rules_on(lines, readings) is Ok,
    ensures
        rules_on(lines, readings)->Ok_0.len() == rule_lines(lines).len(),
        forall|i: int|
            0 <= i < rule_lines(lines).len() ==> (
            #[trigger] rules_on(lines, readings)->Ok_0[i]).source == source_part(
                rule_lines(lines)[i],
            ),
    decreases lines.len(),
{
    if lines.len() > 0 {
        law_no_line_is_dropped(lines.drop_last(), readings);
    }
}

/// A rule that was read never discards the data of a channel: its scale is a number other than
/// zero, its offset is a number.
pub proof fn law_conversions_are_usable(lines: Seq<Seq<char>>, readings: Seq<Option<u64>>, i: int)
    requires
        rules_on(lines, readings) is Ok,
        0 <= i < rules_on(lines, readings)->Ok_0.len(),
    ensures
        finite(rules_on(lines, readings)->Ok_0[i].scale),
        !zero(rules_on(lines, readings)->Ok_0[i].scale),
        finite(rules_on(lines, readings)->Ok_0[i].offset),
    decreases lines.len(),
{
    if lines.len() > 0 {
        let before = rules_on(lines.drop_last(), readings)->Ok_0;
        if i < before.len() {
            law_conversions_are_usable(lines.drop_last(), readings, i);
        }
    }
}

/// Names that differ in case alone have the same rule.
pub proof fn law_lookup_ignores_case(rules: Seq<Rule>, a: Seq<char>, b: Seq<char>)
    requires
        lower(a) == lower(b),
    ensures
        rule_named(rules, a) == rule_named(rules, b),
    decreases rules.len(),
{
    if rules.len() > 0 {
        law_lookup_ignores_case(rules.skip(1), a, b);
    }
}

/// A rule is found if and only if there is one for the channel, and the rule that is found is
/// one for the channel.
pub proof fn law_lookup_finds_the_rule(rules: Seq<Rule>, channel: Seq<char>)
    ensures
        rule_named(rules, channel) is Some <==> has_rule(rules, channel),
        rule_named(rules, channel) matches Some(rule) ==> rules.contains(rule) && lower(rule.source)
            == lower(channel),
    decreases rules.len(),
{
    if rules.len() > 0 {
        let rest = rules.skip(1);
        law_lookup_finds_the_rule(rest, channel);
        if lower(rules[0].source) == lower(channel) {
            assert(has_rule(rules, channel));
            assert(rules.contains(rules[0]));
        } else {
            if has_rule(rules, channel) {
                let i = choose|i: int|
                    0 <= i < rules.len() && lower((#[trigger] rules[i]).source) == lower(channel);
                assert(lower(rest[i - 1].source) == lower(channel));
            }
            if has_rule(rest, channel) {
                let i = choose|i: int|
                    0 <= i < rest.len() && lower((#[trigger] rest[i]).source) == lower(channel);
                assert(lower(rules[i + 1].source) == lower(channel));
            }
            if let Some(rule) = rule_named(rest, channel) {
                let i = choose|i: int| 0 <= i < rest.len() && rest[i] == rule;
                assert(rules[i + 1] == rule);
            }
        }
    }
}

/// A unit that a rule states is declared; a channel without such a rule keeps its unit and
/// where that comes from, and one without any rule keeps its name and its values too.
pub proof fn law_mapping_is_explicit(
    rules: Seq<Rule>,
    channel: Seq<char>,
    unit: Seq<char>,
    source: UnitSource,
)
    ensures
        rule_named(rules, channel) matches Some(rule) ==> (rule.unit matches Some(mapped)
            ==> mapped_unit(rules, channel, unit, source) == (mapped, UnitSource::Declared)),
        rule_named(rules, channel) matches Some(rule) ==> (rule.unit is None ==> mapped_unit(
            rules,
            channel,
            unit,
            source,
        ) == (unit, source)),
        !has_rule(rules, channel) ==> mapped_unit(rules, channel, unit, source) == (unit, source)
            && mapped_name(rules, channel) == channel && mapped_conversion(rules, channel) is None,
{
    law_lookup_finds_the_rule(rules, channel);
}

proof fn lemma_fields_error(words: Seq<Seq<char>>, readings: Seq<Option<u64>>, k: int)
    requires
        0 <= k <= words.len(),
        fields(words.take(k), readings) is Err,
    ensures
        fields(words, readings) == fields(words.take(k), readings),
    decreases words.len() - k,
{
    if k < words.len() {
        assert(words.take(k + 1).drop_last() =~= words.take(k));
        lemma_fields_error(words, readings, k + 1);
    } else {
        assert(words.take(k) =~= words);
    }
}

proof fn lemma_rules_error(lines: Seq<Seq<char>>, readings: Seq<Option<u64>>, k: int)
    requires
        0 <= k <= lines.len(),
        rules_on(lines.take(k), readings) is Err,
    ensures
        rules_on(lines, readings) == rules_on(lines.take(k), readings),
    decreases lines.len() - k,
{
    if k < lines.len() {
        assert(lines.take(k + 1).drop_last() =~= lines.take(k));
        lemma_rules_error(lines, readings, k + 1);
    } else {
        assert(lines.take(k) =~= lines);
    }
}

proof fn lemma_numbers_grow(words: Seq<Seq<char>>, k: int)
    requires
        0 <= k <= words.len(),
    ensures
        numbers_in(words.take(k)).len() <= numbers_in(words).len(),
    decreases words.len() - k,
{
    if k < words.len() {
        assert(words.take(k + 1).drop_last() =~= words.take(k));
        lemma_numbers_grow(words, k + 1);
    } else {
        assert(words.take(k) =~= words);
    }
}

proof fn lemma_line_numbers_grow(lines: Seq<Seq<char>>, k: int)
    requires
        0 <= k <= lines.len(),
    ensures
        numbers_on_lines(lines.take(k)).len() <= numbers_on_lines(lines).len(),
    decreases lines.len() - k,
{
    if k < lines.len() {
        assert(lines.take(k + 1).drop_last() =~= lines.take(k));
        lemma_line_numbers_grow(lines, k + 1);
    } else {
        assert(lines.take(k) =~= lines);
    }
}

// ---------------------------------------------------------------------------------------
// Computing
// ---------------------------------------------------------------------------------------
/// The parts of a rule.
struct RuleParts {
    source: String,
    unit: Option<String>,
    words: Vec<String>,
}

impl RuleParts {
    spec fn parts(self) -> Parts {
        Parts {
            source: self.source@,
            unit: optional_text(self.unit),
            words: texts(self.words@),
        }
    }
}

/// What stands on a line.
fn read_line(raw: &str) -> (line: String)
    ensures
        line@ == rule_line(raw@),
{
    let pieces = split_on(raw, '#');
    assert(texts(pieces@)[0] == pieces@[0]@);
    trimmed(pieces[0].as_str())
}

/// Tells the parts of a rule apart.
fn split_rule(line: &str) -> (parts: Result<RuleParts, String>)
    ensures
        match parts {
            Ok(parts) => rule_parts(line@) == Ok::<Parts, Seq<char>>(parts.parts()),
            Err(message) => rule_parts(line@) == Err::<Parts, Seq<char>>(message@),
        },
{
    let chars = chars_of(line);
    let mut mark: Vec<char> = Vec::new();
    mark.push('-');
    mark.push('>');
    assert(mark@ =~= arrow());
    let source: String;
    let rest: String;
    match find_chars(&chars, &mark, 0) {
        Some(at) => {
            let left = trim_range(&chars, 0, at);
            source = string_of(&chars, left.0, left.1);
            let right = trim_range(&chars, at + 2, chars.len());
            rest = string_of(&chars, right.0, right.1);
            assert(chars@.subrange(0, at as int) =~= line@.take(at as int));
            assert(chars@.subrange(at + 2, chars@.len() as int) =~= line@.skip(at + 2));
        },
        None => {
            source = trimmed(line);
            rest = String::new();
        },
    }
    assert(source@ == source_part(line@));
    assert(rest@ =~= rest_part(line@));
    if source.as_str().is_empty() {
        return Err("missing source channel name".to_owned());
    }
    let chars = chars_of(rest.as_str());
    let mut opening: Vec<char> = Vec::new();
    opening.push('[');
    assert(opening@ =~= seq!['[']);
    let mut closing: Vec<char> = Vec::new();
    closing.push(']');
    assert(closing@ =~= seq![']']);
    match find_chars(&chars, &opening, 0) {
        None => {
            let found = split_words(rest.as_str());
            Ok(RuleParts { source, unit: None, words: found })
        },
        Some(open) => match find_chars(&chars, &closing, open) {
            None => Err("unterminated '[' in unit field".to_owned()),
            Some(close) => {
                proof {
                    crate::text::lemma_find_from(chars@, opening@, 0);
                    crate::text::lemma_find_from(chars@, closing@, open as int);
                    assert(chars@.subrange(open as int, open + 1)[0] == '[');
                    assert(chars@.subrange(close as int, close + 1)[0] == ']');
                }
                let inner = trim_range(&chars, open + 1, close);
                let unit = string_of(&chars, inner.0, inner.1);
                let mut merged = string_of(&chars, 0, open);
                merged.push(' ');
                let tail = string_of(&chars, close + 1, chars.len());
                merged.append(tail.as_str());
                assert(merged@ =~= rest@.take(open as int) + seq![' '] + rest@.skip(close + 1));
                let found = split_words(merged.as_str());
                Ok(RuleParts { source, unit: Some(unit), words: found })
            },
        },
    }
}

/// The mark that a word begins with, and what follows it.
fn split_mark(word: &str) -> (split: (Option<char>, String))
    ensures
        split.0 == (if word@.len() == 0 {
            None
        } else {
            Some(word@[0])
        }),
        word@.len() > 0 ==> split.1@ == word@.skip(1),
{
    let chars = chars_of(word);
    if chars.len() == 0 {
        (None, String::new())
    } else {
        let rest = string_of(&chars, 1, chars.len());
        assert(rest@ =~= word@.skip(1));
        (Some(chars[0]), rest)
    }
}

/// The numbers that the rules in a text state, in the order in which they come up.
pub fn number_fields(text: &str) -> (numbers: Vec<String>)
    ensures
        texts(numbers@) == numbers_on_lines(split(text@, '\n')),
{
    let lines = split_on(text, '\n');
    let ghost all = texts(lines@);
    let mut numbers: Vec<String> = Vec::new();
    let mut i: usize = 0;
    assert(texts(numbers@) =~= numbers_on_lines(all.take(0)));
    while i < lines.len()
        invariant
            i <= lines@.len(),
            all == texts(lines@),
            texts(numbers@) == numbers_on_lines(all.take(i as int)),
        decreases lines@.len() - i,
    {
        assert(all.take(i + 1).drop_last() =~= all.take(i as int));
        let ghost before = texts(numbers@);
        let line = read_line(lines[i].as_str());
        assert(before + numbers_in(Seq::empty()) =~= before);
        if !line.as_str().is_empty() {
            if let Ok(parts) = split_rule(line.as_str()) {
                let ghost found = texts(parts.words@);
                let mut k: usize = 0;
                assert(before + numbers_in(found.take(0)) =~= before);
                while k < parts.words.len()
                    invariant
                        k <= parts.words@.len(),
                        found == texts(parts.words@),
                        texts(numbers@) == before + numbers_in(found.take(k as int)),
                    decreases parts.words@.len() - k,
                {
                    assert(found.take(k + 1).drop_last() =~= found.take(k as int));
                    let (mark, number) = split_mark(parts.words[k].as_str());
                    if mark == Some('*') || mark == Some('+') {
                        let ghost earlier = numbers@;
                        numbers.push(number);
                        assert(texts(numbers@) =~= texts(earlier).push(number@));
                        assert(texts(numbers@) =~= before + numbers_in(found.take(k + 1)));
                    }
                    k = k + 1;
                }
                assert(found.take(k as int) =~= found);
            }
        }
        i = i + 1;
    }
    assert(all.take(i as int) =~= all);
    numbers
}

/// What the words of a rule state.
struct RuleFields {
    target: Vec<String>,
    scale: u64,
    offset: u64,
}

impl RuleFields {
    spec fn fields(self) -> Fields {
        Fields { target: texts(self.target@), scale: self.scale, offset: self.offset }
    }
}

/// A message about a number that cannot be read.
fn bad_number(beginning: &str, number: &str) -> (message: String)
    ensures
        message@ == beginning@ + number@ + "'"@,
{
    let mut message = beginning.to_owned();
    message.append(number);
    message.append("'");
    message
}

/// Reads the words of a rule, with the readings of its numbers from `from` on.
fn read_fields(words: &Vec<String>, readings: &Vec<Option<u64>>, from: usize) -> (stated: Result<
    RuleFields,
    String,
>)
    requires
        from + numbers_in(texts(words@)).len() <= readings@.len(),
    ensures
        ({
            let own = readings@.subrange(
                from as int,
                from + numbers_in(texts(words@)).len(),
            );
            match stated {
                Ok(stated) => fields(texts(words@), own) == Ok::<Fields, Seq<char>>(
                    stated.fields(),
                ),
                Err(message) => fields(texts(words@), own) == Err::<Fields, Seq<char>>(message@),
            }
        }),
{
    let ghost all = texts(words@);
    let ghost own = readings@.subrange(from as int, from + numbers_in(all).len());
    let total: usize = readings.len();
    let mut stated = RuleFields { target: Vec::new(), scale: ONE, offset: ZERO };
    let mut next: usize = from;
    let mut k: usize = 0;
    assert(texts(stated.target@) =~= Seq::empty());
    assert(all.take(0) =~= Seq::empty());
    while k < words.len()
        invariant
            k <= words@.len(),
            all == texts(words@),
            from + numbers_in(all).len() <= readings@.len(),
            total == readings@.len(),
            own == readings@.subrange(from as int, from + numbers_in(all).len()),
            next == from + numbers_in(all.take(k as int)).len(),
            fields(all.take(k as int), own) == Ok::<Fields, Seq<char>>(stated.fields()),
        decreases words@.len() - k,
    {
        proof {
            assert(all.take(k + 1).drop_last() =~= all.take(k as int));
            lemma_numbers_grow(all, k + 1);
        }
        let (mark, number) = split_mark(words[k].as_str());
        if mark == Some('*') {
            match readings[next] {
                Some(scale) => {
                    stated.scale = scale;
                },
                None => {
                    let message = bad_number("invalid scale '", number.as_str());
                    proof {
                        lemma_fields_error(all, own, k + 1);
                    }
                    return Err(message);
                },
            }
            next = next + 1;
        } else if mark == Some('+') {
            match readings[next] {
                Some(offset) => {
                    stated.offset = offset;
                },
                None => {
                    let message = bad_number("invalid offset '", number.as_str());
                    proof {
                        lemma_fields_error(all, own, k + 1);
                    }
                    return Err(message);
                },
            }
            next = next + 1;
        } else {
            let ghost before = stated.target@;
            stated.target.push(words[k].clone());
            assert(texts(stated.target@) =~= texts(before).push(words@[k as int]@));
        }
        k = k + 1;
    }
    assert(all.take(k as int) =~= all);
    Ok(stated)
}

/// Reads the rule on a line, with the readings of its numbers from `from` on.
fn parse_rule(line: &str, parts: RuleParts, readings: &Vec<Option<u64>>, from: usize) -> (rule:
    Result<ChannelRule, String>)
    requires
        rule_parts(line@) == Ok::<Parts, Seq<char>>(parts.parts()),
        line@.len() > 0,
        from + numbers_on(line@).len() <= readings@.len(),
    ensures
        ({
            let own = readings@.subrange(from as int, from + numbers_on(line@).len());
            match rule {
                Ok(rule) => rule_on(line@, own) == Ok::<Rule, Seq<char>>(rule@),
                Err(message) => rule_on(line@, own) == Err::<Rule, Seq<char>>(message@),
            }
        }),
{
    let stated = match read_fields(&parts.words, readings, from) {
        Ok(stated) => stated,
        Err(message) => return Err(message),
    };
    if !is_finite(stated.scale) || !is_finite(stated.offset) {
        return Err("scale and offset must be finite".to_owned());
    }
    if is_zero(stated.scale) {
        return Err("scale of 0 would discard the channel's data".to_owned());
    }
    proof {
        reveal_strlit(" ");
        assert(" "@ =~= seq![' ']);
    }
    let target: Option<String> = if stated.target.len() == 0 {
        None
    } else {
        Some(join_all(&stated.target, " "))
    };
    Ok(
        ChannelRule {
            source: parts.source,
            target,
            unit: parts.unit,
            scale: stated.scale,
            offset: stated.offset,
        },
    )
}

/// A message about a line.
fn line_message(number: usize, message: &str) -> (text: String)
    ensures
        text@ == about_line(number as nat, message@),
{
    let mut text = "channel_map line ".to_owned();
    let digits = decimal_text(number as u64);
    text.append(digits.as_str());
    text.append(": ");
    text.append(message);
    text
}

impl ChannelRule {
    /// Whether this rule changes sample values at all.
    pub fn is_identity(&self) -> (is: bool)
        ensures
            is == self@.conversion().changes_nothing(),
    {
        let conversion = Affine { scale: self.scale, offset: self.offset };
        conversion.is_identity()
    }
}

impl Default for ChannelMap {
    /// No rules.
    fn default() -> (map: Self)
        ensures
            map@.len() == 0,
    {
        ChannelMap { rules: Vec::new() }
    }
}

impl ChannelMap {
    /// Whether there are no rules, so that nothing needs mapping.
    pub fn is_empty(&self) -> (empty: bool)
        ensures
            empty == (self@.len() == 0),
    {
        self.rules.len() == 0
    }

    /// The number of rules.
    pub fn len(&self) -> (len: usize)
        ensures
            len == self@.len(),
    {
        self.rules.len()
    }

    /// The rule for a channel, if there is one.
    pub fn rule_for(&self, channel: &str) -> (rule: Option<&ChannelRule>)
        ensures
            match rule {
                Some(rule) => rule_named(self@, channel@) == Some(rule@),
                None => rule_named(self@, channel@) is None,
            },
    {
        let key = to_lower(channel);
        let mut i: usize = 0;
        assert(self@.skip(0) =~= self@);
        while i < self.rules.len()
            invariant
                i <= self.rules@.len(),
                key@ == lower(channel@),
                rule_named(self@, channel@) == rule_named(self@.skip(i as int), channel@),
            decreases self.rules@.len() - i,
        {
            assert(self@.skip(i as int)[0] == self.rules@[i as int]@);
            if to_lower(self.rules[i].source.as_str()) == key {
                return Some(&self.rules[i]);
            }
            assert(self@.skip(i as int).skip(1) =~= self@.skip(i + 1));
            i = i + 1;
        }
        None
    }

    /// The name under which a channel is reported: its own, unless a rule renames it.
    pub fn name_for<'a>(&'a self, channel: &'a str) -> (name: &'a str)
        ensures
            name@ == mapped_name(self@, channel@),
    {
        match self.rule_for(channel) {
            Some(rule) => match &rule.target {
                Some(target) => target.as_str(),
                None => channel,
            },
            None => channel,
        }
    }

    /// The unit that is reported for a channel, and where it comes from. One that a rule states
    /// is declared.
    pub fn unit_for(&self, channel: &str, unit: &str, source: UnitSource) -> (mapped: (
        String,
        UnitSource,
    ))
        ensures
            (mapped.0@, mapped.1) == mapped_unit(self@, channel@, unit@, source),
    {
        match self.rule_for(channel) {
            Some(rule) => match &rule.unit {
                Some(mapped) => (mapped.clone(), UnitSource::Declared),
                None => (unit.to_owned(), source),
            },
            None => (unit.to_owned(), source),
        }
    }

    /// The conversion of a channel's samples, if they change.
    pub fn conversion_for(&self, channel: &str) -> (conversion: Option<Affine>)
        ensures
            conversion == mapped_conversion(self@, channel@),
    {
        match self.rule_for(channel) {
            Some(rule) => if rule.is_identity() {
                None
            } else {
                Some(Affine { scale: rule.scale, offset: rule.offset })
            },
            None => None,
        }
    }

    /// Reads rules from text, given what each of `number_fields` was read as. Blank lines and
    /// comments are ignored; anything else that is no rule is an error.
    pub fn parse(text: &str, readings: &Vec<Option<u64>>) -> (map: Result<ChannelMap, String>)
        requires
            readings@.len() == numbers_on_lines(split(text@, '\n')).len(),
        ensures
            match map {
                Ok(map) => rules_on(split(text@, '\n'), readings@) == Ok::<Seq<Rule>, Seq<char>>(
                    map@,
                ),
                Err(message) => rules_on(split(text@, '\n'), readings@) == Err::<
                    Seq<Rule>,
                    Seq<char>,
                >(message@),
            },
    {
        let lines = split_on(text, '\n');
        let ghost all = texts(lines@);
        let total: usize = readings.len();
        let count: usize = lines.len();
        let mut map = ChannelMap { rules: Vec::new() };
        let mut next: usize = 0;
        let mut i: usize = 0;
        assert(all.take(0) =~= Seq::empty());
        assert(map@ =~= Seq::empty());
        while i < lines.len()
            invariant
                i <= lines@.len(),
                count == lines@.len(),
                all == texts(lines@),
                all == split(text@, '\n'),
                total == readings@.len(),
                readings@.len() == numbers_on_lines(all).len(),
                next == numbers_on_lines(all.take(i as int)).len(),
                rules_on(all.take(i as int), readings@) == Ok::<Seq<Rule>, Seq<char>>(map@),
            decreases lines@.len() - i,
        {
            let ghost upto = all.take(i + 1);
            proof {
                assert(upto.drop_last() =~= all.take(i as int));
                lemma_line_numbers_grow(all, i + 1);
            }
            let line = read_line(lines[i].as_str());
            if !line.as_str().is_empty() {
                let parts = match split_rule(line.as_str()) {
                    Ok(parts) => parts,
                    Err(message) => {
                        let message = line_message(i + 1, message.as_str());
                        proof {
                            lemma_rules_error(all, readings@, i + 1);
                        }
                        return Err(message);
                    },
                };
                let rule = match parse_rule(line.as_str(), parts, readings, next) {
                    Ok(rule) => rule,
                    Err(message) => {
                        let message = line_message(i + 1, message.as_str());
                        proof {
                            lemma_rules_error(all, readings@, i + 1);
                        }
                        return Err(message);
                    },
                };
                proof {
                    law_lookup_finds_the_rule(map@, rule.source@);
                }
                if map.rule_for(rule.source.as_str()).is_some() {
                    let message = bad_number("duplicate rule for '", rule.source.as_str());
                    let message = line_message(i + 1, message.as_str());
                    proof {
                        lemma_rules_error(all, readings@, i + 1);
                    }
                    return Err(message);
                }
                let ghost before = map@;
                map.rules.push(rule);
                assert(map@ =~= before.push(rule@));
                next = next + count_numbers(line.as_str());
            }
            i = i + 1;
        }
        assert(all.take(i as int) =~= all);
        Ok(map)
    }

    /// Checks that every rule is for a channel that exists: one that is not would silently do
    /// nothing.
    pub fn validate(&self, available: &Vec<String>) -> (checked: Result<(), String>)
        ensures
            ({
                let missing = unmatched_sources(self@, texts(available@));
                match checked {
                    Ok(_) => missing.len() == 0,
                    Err(message) => missing.len() > 0 && message@
                        == "channel_map references channel(s) not present in the data: "@ + join(
                        sorted(missing),
                        ", "@,
                    ),
                }
            }),
    {
        let mut missing: Vec<String> = Vec::new();
        let mut i: usize = 0;
        assert(texts(missing@) =~= unmatched_sources(self@.take(0), texts(available@)));
        while i < self.rules.len()
            invariant
                i <= self.rules@.len(),
                texts(missing@) == unmatched_sources(self@.take(i as int), texts(available@)),
            decreases self.rules@.len() - i,
        {
            assert(self@.take(i + 1).drop_last() =~= self@.take(i as int));
            let key = to_lower(self.rules[i].source.as_str());
            if !holds_ignoring_case(available, key.as_str()) {
                let ghost before = missing@;
                missing.push(self.rules[i].source.clone());
                assert(texts(missing@) =~= texts(before).push(self.rules@[i as int].source@));
            }
            i = i + 1;
        }
        assert(self@.take(i as int) =~= self@);
        assert(missing@.len() == texts(missing@).len());
        if missing.len() > 0 {
            let in_order = sorted_list(&missing);
            let listed = join_all(&in_order, ", ");
            let mut message =
                "channel_map references channel(s) not present in the data: ".to_owned();
            message.append(listed.as_str());
            return Err(message);
        }
        Ok(())
    }
}

/// The number of numbers that the rule on a line states.
fn count_numbers(line: &str) -> (count: usize)
    ensures
        count == numbers_on(line@).len(),
{
    if line.is_empty() {
        return 0;
    }
    match split_rule(line) {
        Ok(parts) => {
            let ghost found = texts(parts.words@);
            let mut count: usize = 0;
            let mut k: usize = 0;
            assert(numbers_in(found.take(0)).len() == 0);
            while k < parts.words.len()
                invariant
                    k <= parts.words@.len(),
                    found == texts(parts.words@),
                    count <= k,
                    count == numbers_in(found.take(k as int)).len(),
                decreases parts.words@.len() - k,
            {
                assert(found.take(k + 1).drop_last() =~= found.take(k as int));
                let (mark, _) = split_mark(parts.words[k].as_str());
                if mark == Some('*') || mark == Some('+') {
                    count = count + 1;
                }
                k = k + 1;
            }
            assert(found.take(k as int) =~= found);
            count
        },
        Err(_) => 0,
    }
}

// ---------------------------------------------------------------------------------------
// Where rules come from
// ---------------------------------------------------------------------------------------
/// What a `channel_map` argument may be.
#[derive(Debug)]
pub enum MapArgument {
    /// No rules.
    Nothing,
    /// Rules.
    Rules(String),
    /// The path of a file with rules where it names a file, else rules.
    FileOrRules(String),
}

/// What a `channel_map` argument may be: text with an arrow in it is never a path.
pub fn map_argument(value: Option<&str>) -> (argument: MapArgument)
    ensures
        match value {
            None => argument is Nothing,
            Some(text) => if trim(text@).len() == 0 {
                argument is Nothing
            } else if contains(trim(text@), arrow()) {
                argument matches MapArgument::Rules(rules) && rules@ == trim(text@)
            } else {
                argument matches MapArgument::FileOrRules(rules) && rules@ == trim(text@)
            },
        },
{
    match value {
        None => MapArgument::Nothing,
        Some(text) => {
            let inner = trimmed(text);
            proof {
                reveal_strlit("->");
                assert("->"@ =~= arrow());
            }
            if inner.as_str().is_empty() {
                MapArgument::Nothing
            } else if contains_text(inner.as_str(), "->") {
                MapArgument::Rules(inner)
            } else {
                MapArgument::FileOrRules(inner)
            }
        },
    }
}

/// The message for a file with rules that cannot be read.
pub fn unreadable_map(path: &str, error: &str) -> (message: String)
    ensures
        message@ == "cannot read channel_map file '"@ + path@ + "': "@ + error@,
{
    let mut message = "cannot read channel_map file '".to_owned();
    message.append(path);
    message.append("': ");
    message.append(error);
    message
}

} // verus!

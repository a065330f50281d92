//! What holds of text.
use crate::text::{
    contains, decimal, digit, find, is_ascii_alphanumeric, is_space, join, lemma_find_from, lower,
    occurs_at, replace, signed_decimal, split, text_le, trim, trim_end, trim_start, words,
};
use vstd::prelude::*;

verus! {

// ---------------------------------------------------------------------------------------
// Case
// ---------------------------------------------------------------------------------------
/// The `k`-th capital letter becomes the `k`-th small letter, and every other character stays.
pub proof fn law_capitals_become_small(s: Seq<char>, i: int)
    requires
        0 <= i < s.len(),
    ensures
        'A' <= s[i] <= 'Z' ==> 'a' <= lower(s)[i] <= 'z' && lower(s)[i] as int - 'a' as int
            == s[i] as int - 'A' as int,
        !('A' <= s[i] <= 'Z') ==> lower(s)[i] == s[i],
{
}

/// Letters and digits are the ten digits, the capital letters and the small letters of ASCII.
pub proof fn law_letters_and_digits(c: char)
    ensures
        is_ascii_alphanumeric(c) <==> 48 <= c as int <= 57 || 65 <= c as int <= 90 || 97 <= c as int
            <= 122,
{
}

/// Lowering keeps the length.
pub proof fn law_lowering_keeps_the_length(s: Seq<char>)
    ensures
        lower(s).len() == s.len(),
{
}

/// Lowering goes by characters: what stands before or after them plays no part.
pub proof fn law_lowering_goes_by_characters(s: Seq<char>, t: Seq<char>)
    ensures
        lower(s + t) == lower(s) + lower(t),
{
    assert(lower(s + t) =~= lower(s) + lower(t));
}

/// Lowering twice is lowering once.
pub proof fn law_lowering_is_idempotent(s: Seq<char>)
    ensures
        lower(lower(s)) == lower(s),
{
    assert(lower(lower(s)) =~= lower(s));
}

// ---------------------------------------------------------------------------------------
// White space
// ---------------------------------------------------------------------------------------
/// Whether text is white space only.
pub open spec fn is_blank(s: Seq<char>) -> bool {
    forall|i: int| 0 <= i < s.len() ==> is_space(#[trigger] s[i])
}

/// Whether text has no white space.
pub open spec fn is_solid(s: Seq<char>) -> bool {
    forall|i: int| 0 <= i < s.len() ==> !is_space(#[trigger] s[i])
}

/// Whether text neither starts nor ends with white space.
pub open spec fn is_trimmed(s: Seq<char>) -> bool {
    s.len() > 0 ==> !is_space(s[0]) && !is_space(s.last())
}

/// Among the characters of ASCII, white space is the space, the tab, the line feed, the
/// vertical tab, the form feed and the carriage return; a letter, a digit or a sign is none.
pub proof fn law_white_space(c: char)
    ensures
        (c as u32) < 0x80 ==> (is_space(c) <==> c == ' ' || c == '\t' || c == '\n' || c == '\r' || c
            as u32 == 0xb || c as u32 == 0xc),
        (c as u32) >= 0x80 ==> (is_space(c) <==> {
            ||| c as u32 == 0x85
            ||| c as u32 == 0xa0
            ||| c as u32 == 0x1680
            ||| 0x2000 <= c as u32 <= 0x200a
            ||| c as u32 == 0x2028
            ||| c as u32 == 0x2029
            ||| c as u32 == 0x202f
            ||| c as u32 == 0x205f
            ||| c as u32 == 0x3000
        }),
{
}

/// Trimming takes the white space around text, all of it, and nothing else.
pub proof fn law_trimming(before: Seq<char>, core: Seq<char>, after: Seq<char>)
    requires
        is_blank(before),
        is_blank(after),
        is_trimmed(core),
    ensures
        trim(before + core + after) == core,
    decreases before.len() + after.len(),
{
    let all = before + core + after;
    if before.len() > 0 {
        assert(all.skip(1) =~= before.skip(1) + core + after);
        assert(all[0] == before[0]);
        law_trimming(before.skip(1), core, after);
    } else if core.len() == 0 && after.len() > 0 {
        assert(all.skip(1) =~= after.skip(1) + core + before);
        assert(all[0] == after[0]);
        law_trimming(after.skip(1), core, before);
    } else {
        assert(all =~= core + after);
        if core.len() > 0 {
            assert(all[0] == core[0]);
        }
        assert(trim_start(all) == all);
        lemma_trim_end(core, after);
    }
}

proof fn lemma_trim_end(core: Seq<char>, after: Seq<char>)
    requires
        is_blank(after),
        core.len() > 0 ==> !is_space(core.last()),
    ensures
        trim_end(core + after) == core,
    decreases after.len(),
{
    let all = core + after;
    if after.len() > 0 {
        assert(all.drop_last() =~= core + after.drop_last());
        assert(all.last() == after[after.len() - 1]);
        lemma_trim_end(core, after.drop_last());
    } else {
        assert(all =~= core);
    }
}

/// What is trimmed is the text between white space.
pub proof fn law_trimmed_text_is_in_the_text(s: Seq<char>)
    ensures
        is_trimmed(trim(s)),
        exists|before: Seq<char>, after: Seq<char>|
            #![trigger is_blank(before), is_blank(after)]
            is_blank(before) && is_blank(after) && s == before + trim(s) + after,
{
    lemma_trim_start_parts(s);
    let t = trim_start(s);
    let before = choose|before: Seq<char>| #[trigger] is_blank(before) && s == before + t;
    lemma_trim_end_parts(t);
    let after = choose|after: Seq<char>| #[trigger] is_blank(after) && t == trim(s) + after;
    assert(s =~= before + trim(s) + after);
}

proof fn lemma_trim_start_parts(s: Seq<char>)
    ensures
        trim_start(s).len() > 0 ==> !is_space(trim_start(s)[0]),
        exists|before: Seq<char>| #[trigger] is_blank(before) && s == before + trim_start(s),
    decreases s.len(),
{
    if s.len() > 0 && is_space(s[0]) {
        lemma_trim_start_parts(s.skip(1));
        let rest = choose|before: Seq<char>| #[trigger]
            is_blank(before) && s.skip(1) == before + trim_start(s.skip(1));
        let before = seq![s[0]] + rest;
        assert forall|i: int| 0 <= i < before.len() implies is_space(#[trigger] before[i]) by {
            if i > 0 {
                assert(before[i] == rest[i - 1]);
            }
        }
        assert(is_blank(before));
        assert(s =~= seq![s[0]] + s.skip(1));
        assert(before + trim_start(s) =~= seq![s[0]] + (rest + trim_start(s.skip(1))));
        assert(s =~= before + trim_start(s));
    } else {
        let none = Seq::<char>::empty();
        assert(is_blank(none));
        assert(s =~= none + s);
    }
}

proof fn lemma_trim_end_parts(s: Seq<char>)
    requires
        s.len() > 0 ==> !is_space(s[0]),
    ensures
        is_trimmed(trim_end(s)),
        exists|after: Seq<char>| #[trigger] is_blank(after) && s == trim_end(s) + after,
    decreases s.len(),
{
    if s.len() > 0 && is_space(s.last()) {
        lemma_trim_end_parts(s.drop_last());
        let rest = choose|after: Seq<char>| #[trigger]
            is_blank(after) && s.drop_last() == trim_end(s.drop_last()) + after;
        let after = rest.push(s.last());
        assert(is_blank(after));
        assert(s =~= s.drop_last().push(s.last()));
        assert(trim_end(s) + after =~= (trim_end(s.drop_last()) + rest).push(s.last()));
        assert(s =~= trim_end(s) + after);
    } else {
        let none = Seq::<char>::empty();
        assert(is_blank(none));
        assert(s =~= s + none);
    }
}

// ---------------------------------------------------------------------------------------
// Parts
// ---------------------------------------------------------------------------------------
/// Splitting gives back what was joined.
pub proof fn law_joined_parts_are_split_again(parts: Seq<Seq<char>>, separator: char)
    requires
        parts.len() > 0,
        forall|i: int| 0 <= i < parts.len() ==> !(#[trigger] parts[i]).contains(separator),
    ensures
        split(join(parts, seq![separator]), separator) == parts,
    decreases parts.len(),
{
    let sep = seq![separator];
    if parts.len() == 1 {
        assert(!parts[0].contains(separator));
        lemma_split_rest(Seq::empty(), parts[0], separator);
        assert(Seq::<char>::empty() + parts[0] =~= parts[0]);
        let found = split(Seq::<char>::empty(), separator);
        assert(found =~= seq![Seq::<char>::empty()]);
        assert(found.drop_last().push(found.last() + parts[0]) =~= parts);
    } else {
        let front = parts.drop_last();
        law_joined_parts_are_split_again(front, separator);
        let text = join(front, sep) + sep;
        assert(text.drop_last() =~= join(front, sep));
        assert(text.last() == separator);
        assert(!parts.last().contains(separator)) by {
            assert(parts.last() == parts[parts.len() - 1]);
        }
        lemma_split_rest(text, parts.last(), separator);
        let found = split(text, separator);
        assert(found == front.push(Seq::empty()));
        assert(found.drop_last() =~= front);
        assert(found.last() + parts.last() =~= parts.last());
        assert(front.push(parts.last()) =~= parts);
    }
}

proof fn lemma_split_rest(s: Seq<char>, rest: Seq<char>, separator: char)
    requires
        !rest.contains(separator),
    ensures
        split(s, separator).len() > 0,
        split(s + rest, separator) == split(s, separator).drop_last().push(
            split(s, separator).last() + rest,
        ),
    decreases rest.len(), s.len(),
{
    if s.len() > 0 {
        assert(!Seq::<char>::empty().contains(separator));
        lemma_split_some(s.drop_last(), separator);
    }
    lemma_split_some(s, separator);
    let found = split(s, separator);
    if rest.len() == 0 {
        assert(s + rest =~= s);
        assert(found.last() + rest =~= found.last());
        assert(found.drop_last().push(found.last()) =~= found);
    } else {
        let less = rest.drop_last();
        assert forall|i: int| 0 <= i < less.len() implies #[trigger] less[i] != separator by {
            assert(less[i] == rest[i]);
            assert(rest.contains(rest[i]));
        }
        lemma_split_rest(s, less, separator);
        assert(rest.contains(rest[rest.len() - 1]));
        assert((s + rest).drop_last() =~= s + less);
        assert((s + rest).last() == rest.last());
        let before = split(s + less, separator);
        assert(before.drop_last() =~= found.drop_last());
        assert((found.last() + less).push(rest.last()) =~= found.last() + rest);
    }
}

proof fn lemma_split_some(s: Seq<char>, separator: char)
    ensures
        split(s, separator).len() > 0,
    decreases s.len(),
{
    if s.len() > 0 {
        lemma_split_some(s.drop_last(), separator);
    }
}

/// Splitting loses nothing but the separators, and no part has one.
pub proof fn law_split_parts_are_joined_again(s: Seq<char>, separator: char)
    ensures
        split(s, separator).len() > 0,
        join(split(s, separator), seq![separator]) == s,
        forall|i: int|
            0 <= i < split(s, separator).len() ==> !(#[trigger] split(s, separator)[i]).contains(
                separator,
            ),
    decreases s.len(),
{
    let parts = split(s, separator);
    let sep = seq![separator];
    if s.len() > 0 {
        let front = split(s.drop_last(), separator);
        law_split_parts_are_joined_again(s.drop_last(), separator);
        if s.last() == separator {
            assert(parts.drop_last() =~= front);
            assert(join(parts, sep) == join(front, sep) + sep + Seq::<char>::empty());
            assert(join(parts, sep) =~= s);
            assert forall|i: int| 0 <= i < parts.len() implies !(#[trigger] parts[i]).contains(
                separator,
            ) by {
                if i < front.len() {
                    assert(parts[i] == front[i]);
                }
            }
        } else {
            let last = front.last().push(s.last());
            assert(parts.drop_last() =~= front.drop_last());
            assert(parts.last() == last);
            if front.len() == 1 {
                assert(s =~= s.drop_last().push(s.last()));
                assert(join(parts, sep) =~= s);
            } else {
                let head = join(front.drop_last(), sep) + sep;
                assert(parts.len() == front.len());
                assert(join(parts, sep) == head + last);
                assert(join(front, sep) == head + front.last());
                assert(s =~= s.drop_last().push(s.last()));
                assert(head + last =~= (head + front.last()).push(s.last()));
            }
            assert forall|i: int| 0 <= i < parts.len() implies !(#[trigger] parts[i]).contains(
                separator,
            ) by {
                if i < front.len() - 1 {
                    assert(parts[i] == front[i]);
                } else {
                    assert(front.last() == front[front.len() - 1]);
                    assert(parts[i] == last);
                    if last.contains(separator) {
                        let k = choose|k: int| 0 <= k < last.len() && last[k] == separator;
                        assert(front.last()[k] == separator);
                    }
                }
            }
        }
    } else {
        assert(join(parts, sep) =~= s);
    }
}

/// Joining puts the separator between neighbours and nowhere else.
pub proof fn law_joining(a: Seq<Seq<char>>, b: Seq<Seq<char>>, separator: Seq<char>)
    requires
        a.len() > 0,
        b.len() > 0,
    ensures
        join(a + b, separator) == join(a, separator) + separator + join(b, separator),
        a.len() == 1 ==> join(a, separator) == a[0],
        join(Seq::<Seq<char>>::empty(), separator) == Seq::<char>::empty(),
    decreases b.len(),
{
    let all = a + b;
    assert(all.last() == b.last());
    assert(all.drop_last() =~= a + b.drop_last());
    if b.len() == 1 {
        assert(all.drop_last() =~= a);
    } else {
        law_joining(a, b.drop_last(), separator);
        assert(join(all, separator) =~= join(a, separator) + separator + join(b, separator));
    }
}

/// The words of two texts with white space between them are those of the one and then those of
/// the other.
pub proof fn law_words_are_apart(s: Seq<char>, t: Seq<char>)
    requires
        s.len() == 0 || t.len() == 0 || is_space(s.last()) || is_space(t[0]),
    ensures
        words(s + t) == words(s) + words(t),
    decreases t.len(),
{
    let all = s + t;
    if t.len() == 0 {
        assert(all =~= s);
        assert(words(s) + words(t) =~= words(s));
    } else {
        let less = t.drop_last();
        assert(all.drop_last() =~= s + less);
        assert(all.last() == t.last());
        law_words_are_apart(s, less);
        let before = words(s + less);
        if is_space(t.last()) {
        } else if t.len() == 1 {
            if s.len() > 0 {
                assert(all[all.len() - 2] == s.last());
            }
            assert(before =~= words(s));
            assert(words(t) =~= seq![seq![t.last()]]);
            assert(words(all) =~= words(s) + words(t));
        } else {
            assert(all[all.len() - 2] == t[t.len() - 2]);
            if is_space(t[t.len() - 2]) {
                assert(words(all) =~= words(s) + words(t));
            } else {
                lemma_words_some(less);
                assert(words(all) =~= words(s) + words(t));
            }
        }
    }
}

proof fn lemma_words_some(s: Seq<char>)
    requires
        s.len() > 0,
        !is_space(s.last()),
    ensures
        words(s).len() > 0,
    decreases s.len(),
{
    if s.len() > 1 && !is_space(s[s.len() - 2]) {
        lemma_words_some(s.drop_last());
    }
}

/// White space has no words, and text without white space is one word.
pub proof fn law_a_word_is_solid(s: Seq<char>)
    ensures
        is_blank(s) ==> words(s) == Seq::<Seq<char>>::empty(),
        is_solid(s) && s.len() > 0 ==> words(s) == seq![s],
    decreases s.len(),
{
    if s.len() > 0 {
        let less = s.drop_last();
        law_a_word_is_solid(less);
        assert(s.last() == s[s.len() - 1]);
        if is_blank(s) {
            assert(is_blank(less)) by {
                assert forall|i: int| 0 <= i < less.len() implies is_space(#[trigger] less[i]) by {
                    assert(less[i] == s[i]);
                }
            }
        }
        if is_solid(s) {
            if s.len() == 1 {
                assert(words(s) =~= seq![s]) by {
                    assert(seq![s.last()] =~= s);
                    assert(words(less) =~= Seq::<Seq<char>>::empty());
                }
            } else {
                assert(is_solid(less)) by {
                    assert forall|i: int| 0 <= i < less.len() implies !is_space(
                        #[trigger] less[i],
                    ) by {
                        assert(less[i] == s[i]);
                    }
                }
                assert(!is_space(s[s.len() - 2]));
                assert(less.push(s.last()) =~= s);
                assert(words(s) =~= seq![s]);
            }
        }
    }
}

/// Replacing goes by characters: each occurrence of the one character becomes the text, and
/// every other character stays.
pub proof fn law_replacing(s: Seq<char>, t: Seq<char>, c: char, from: char, to: Seq<char>)
    ensures
        replace(s + t, from, to) == replace(s, from, to) + replace(t, from, to),
        replace(seq![c], from, to) == (if c == from {
            to
        } else {
            seq![c]
        }),
        replace(Seq::<char>::empty(), from, to) == Seq::<char>::empty(),
    decreases t.len(),
{
    reveal_with_fuel(replace, 2);
    assert(seq![c].drop_last() =~= Seq::<char>::empty());
    assert(replace(seq![c], from, to) =~= (if c == from {
        to
    } else {
        seq![c]
    }));
    if t.len() == 0 {
        assert(s + t =~= s);
        assert(replace(s, from, to) + replace(t, from, to) =~= replace(s, from, to));
    } else {
        law_replacing(s, t.drop_last(), c, from, to);
        assert((s + t).drop_last() =~= s + t.drop_last());
        assert((s + t).last() == t.last());
        assert(replace(s + t, from, to) =~= replace(s, from, to) + replace(t, from, to));
    }
}

/// A pattern stands in text exactly if the text is something, the pattern and something, and
/// it is found where the least stands in front of it.
pub proof fn law_finding(before: Seq<char>, pattern: Seq<char>, after: Seq<char>)
    ensures
        contains(before + pattern + after, pattern),
        find(before + pattern + after, pattern) matches Some(at) && 0 <= at <= before.len()
            && occurs_at(before + pattern + after, pattern, at) && forall|k: int|
            0 <= k < at ==> !#[trigger] occurs_at(before + pattern + after, pattern, k),
        forall|s: Seq<char>| #[trigger]
            contains(s, pattern) <==> find(s, pattern) is Some,
{
    let s = before + pattern + after;
    assert(s.subrange(before.len() as int, (before.len() + pattern.len()) as int) =~= pattern);
    assert(occurs_at(s, pattern, before.len() as int));
    lemma_find_from(s, pattern, 0);
    assert forall|s: Seq<char>| #[trigger] contains(s, pattern) <==> find(s, pattern) is Some by {
        lemma_find_from(s, pattern, 0);
    }
}

// ---------------------------------------------------------------------------------------
// Numbers
// ---------------------------------------------------------------------------------------
/// The number that decimal digits stand for.
pub open spec fn number_of(digits: Seq<char>) -> int
    decreases digits.len(),
{
    if digits.len() == 0 {
        0
    } else {
        number_of(digits.drop_last()) * 10 + (digits.last() as int - '0' as int)
    }
}

/// A number in decimal notation is digits only, stands for the number, and does not start with
/// a zero unless it is zero. A negative one has a minus sign in front.
pub proof fn law_decimals_stand_for_their_numbers(n: nat)
    ensures
        number_of(decimal(n)) == n,
        decimal(n).len() > 0,
        decimal(n)[0] == '0' ==> n == 0 && decimal(n).len() == 1,
        forall|i: int| 0 <= i < decimal(n).len() ==> '0' <= #[trigger] decimal(n)[i] <= '9',
        signed_decimal(n as int) == decimal(n),
        n > 0 ==> signed_decimal(-n) == seq!['-'] + decimal(n),
    decreases n,
{
    reveal_with_fuel(number_of, 2);
    assert((48 + n % 10) as char as int == 48 + n % 10);
    if n < 10 {
        assert(decimal(n).drop_last() =~= Seq::<char>::empty());
        assert(decimal(n).last() == digit(n as int));
    } else {
        law_decimals_stand_for_their_numbers(n / 10);
        assert(decimal(n).drop_last() =~= decimal(n / 10));
    }
}

// ---------------------------------------------------------------------------------------
// Order
// ---------------------------------------------------------------------------------------
/// The first character in which two texts differ decides which comes first, and text comes
/// before what continues it.
pub proof fn law_the_first_difference_decides(
    common: Seq<char>,
    a: char,
    b: char,
    s: Seq<char>,
    t: Seq<char>,
)
    ensures
        a != b ==> (text_le(common + seq![a] + s, common + seq![b] + t) <==> (a as int) < (
        b as int)),
        text_le(common, common + s),
        s.len() > 0 ==> !text_le(common + s, common),
    decreases common.len(),
{
    let x = common + seq![a] + s;
    let y = common + seq![b] + t;
    if common.len() > 0 {
        let rest = common.skip(1);
        law_the_first_difference_decides(rest, a, b, s, t);
        assert(x.skip(1) =~= rest + seq![a] + s);
        assert(y.skip(1) =~= rest + seq![b] + t);
        assert(x[0] == common[0] && y[0] == common[0]);
        assert((common + s).skip(1) =~= rest + s);
        assert((common + s)[0] == common[0]);
    } else {
        assert(x[0] == a && y[0] == b);
        assert(common + s =~= s);
    }
}

} // verus!

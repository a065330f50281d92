//! Text as sequences of characters.
//!
//! The specification functions say what a piece of text is; the executable functions of the
//! same flavour compute it from `&str` and `String`.
use vstd::prelude::*;

verus! {

/// `str`'s `==`: two strings are equal when they hold the same characters.
pub assume_specification[ <str as PartialEq>::eq ](left: &str, right: &str) -> (equal: bool)
    ensures
        equal == (left@ == right@),
;

/// `String::push`: the given character is appended to the string.
pub assume_specification[ String::push ](text: &mut String, c: char)
    ensures
        final(text)@ == old(text)@.push(c),
;

/// `char::from_u32`: every Unicode scalar value is a character, and nothing else is.
pub assume_specification[ char::from_u32 ](code: u32) -> (c: Option<char>)
    ensures
        c == (if code <= 0xd7ff || 0xe000 <= code <= 0x10ffff {
            Some(code as char)
        } else {
            None
        }),
;

// ---------------------------------------------------------------------------------------
// What text is
// ---------------------------------------------------------------------------------------
/// A character with an ASCII capital letter turned into its small letter.
pub open spec fn ascii_lower(c: char) -> char {
    if 'A' <= c && c <= 'Z' {
        ((c as u32) + 32) as char
    } else {
        c
    }
}

/// Text with every ASCII capital letter turned into its small letter.
pub open spec fn lower(s: Seq<char>) -> Seq<char> {
    Seq::new(s.len(), |i: int| ascii_lower(s[i]))
}

/// Whether a character has Unicode's `White_Space` property.
pub open spec fn is_space(c: char) -> bool {
    let n = c as u32;
    ||| 0x9 <= n <= 0xd
    ||| n == 0x20
    ||| n == 0x85
    ||| n == 0xa0
    ||| n == 0x1680
    ||| 0x2000 <= n <= 0x200a
    ||| n == 0x2028
    ||| n == 0x2029
    ||| n == 0x202f
    ||| n == 0x205f
    ||| n == 0x3000
}

/// Whether a character is an ASCII letter or digit.
pub open spec fn is_ascii_alphanumeric(c: char) -> bool {
    ||| '0' <= c && c <= '9'
    ||| 'A' <= c && c <= 'Z'
    ||| 'a' <= c && c <= 'z'
}

/// Text without its leading white space.
pub open spec fn trim_start(s: Seq<char>) -> Seq<char>
    decreases s.len(),
{
    if s.len() > 0 && is_space(s[0]) {
        trim_start(s.skip(1))
    } else {
        s
    }
}

/// Text without its trailing white space.
pub open spec fn trim_end(s: Seq<char>) -> Seq<char>
    decreases s.len(),
{
    if s.len() > 0 && is_space(s.last()) {
        trim_end(s.drop_last())
    } else {
        s
    }
}

/// Text without the white space around it.
pub open spec fn trim(s: Seq<char>) -> Seq<char> {
    trim_end(trim_start(s))
}

/// The parts of text between the occurrences of a separator.
pub open spec fn split(s: Seq<char>, separator: char) -> Seq<Seq<char>>
    decreases s.len(),
{
    if s.len() == 0 {
        seq![Seq::empty()]
    } else {
        let parts = split(s.drop_last(), separator);
        if s.last() == separator {
            parts.push(Seq::empty())
        } else {
            parts.drop_last().push(parts.last().push(s.last()))
        }
    }
}

/// The maximal runs of characters that are not white space.
pub open spec fn words(s: Seq<char>) -> Seq<Seq<char>>
    decreases s.len(),
{
    if s.len() == 0 {
        Seq::empty()
    } else {
        let found = words(s.drop_last());
        if is_space(s.last()) {
            found
        } else if s.len() == 1 || is_space(s[s.len() - 2]) {
            found.push(seq![s.last()])
        } else {
            found.drop_last().push(found.last().push(s.last()))
        }
    }
}

/// Parts put one after the other with a separator between them.
pub open spec fn join(parts: Seq<Seq<char>>, separator: Seq<char>) -> Seq<char>
    decreases parts.len(),
{
    if parts.len() == 0 {
        Seq::empty()
    } else if parts.len() == 1 {
        parts[0]
    } else {
        join(parts.drop_last(), separator) + separator + parts.last()
    }
}

/// Text with every occurrence of one character replaced.
pub open spec fn replace(s: Seq<char>, from: char, to: Seq<char>) -> Seq<char>
    decreases s.len(),
{
    if s.len() == 0 {
        Seq::empty()
    } else {
        replace(s.drop_last(), from, to) + (if s.last() == from {
            to
        } else {
            seq![s.last()]
        })
    }
}

/// Whether `pattern` stands in `s` at position `at`.
pub open spec fn occurs_at(s: Seq<char>, pattern: Seq<char>, at: int) -> bool {
    0 <= at && at + pattern.len() <= s.len() && s.subrange(at, at + pattern.len()) == pattern
}

/// The first position from `from` on at which `pattern` stands in `s`.
pub open spec fn find_from(s: Seq<char>, pattern: Seq<char>, from: int) -> Option<int>
    decreases s.len() - from + 1,
{
    if from < 0 || from + pattern.len() > s.len() {
        None
    } else if occurs_at(s, pattern, from) {
        Some(from)
    } else {
        find_from(s, pattern, from + 1)
    }
}

/// The first position at which `pattern` stands in `s`.
pub open spec fn find(s: Seq<char>, pattern: Seq<char>) -> Option<int> {
    find_from(s, pattern, 0)
}

/// Whether `pattern` stands anywhere in `s`.
pub open spec fn contains(s: Seq<char>, pattern: Seq<char>) -> bool {
    exists|at: int| #[trigger] occurs_at(s, pattern, at)
}

/// The decimal digit for a number below ten.
pub open spec fn digit(n: int) -> char {
    (48 + n) as char
}

/// A natural number in decimal notation.
pub open spec fn decimal(n: nat) -> Seq<char>
    decreases n,
{
    if n < 10 {
        seq![digit(n as int)]
    } else {
        decimal(n / 10).push(digit((n % 10) as int))
    }
}

/// An integer in decimal notation, with a minus sign where it is negative.
pub open spec fn signed_decimal(n: int) -> Seq<char> {
    if n < 0 {
        seq!['-'] + decimal((-n) as nat)
    } else {
        decimal(n as nat)
    }
}

/// The texts that a list of strings holds.
pub open spec fn texts(list: Seq<String>) -> Seq<Seq<char>> {
    Seq::new(list.len(), |i: int| list[i]@)
}

/// The text that an optional string holds.
pub open spec fn optional_text(value: Option<String>) -> Option<Seq<char>> {
    match value {
        Some(text) => Some(text@),
        None => None,
    }
}

/// Code point order: the first character in which two texts differ decides, and a proper
/// beginning of a text comes before it.
pub open spec fn text_le(a: Seq<char>, b: Seq<char>) -> bool
    decreases a.len(),
{
    if a.len() == 0 {
        true
    } else if b.len() == 0 {
        false
    } else if a[0] == b[0] {
        text_le(a.skip(1), b.skip(1))
    } else {
        (a[0] as int) < (b[0] as int)
    }
}

/// A sorted list of texts with one more text in its place.
pub open spec fn insert_sorted(list: Seq<Seq<char>>, text: Seq<char>) -> Seq<Seq<char>>
    decreases list.len(),
{
    if list.len() == 0 || text_le(list.last(), text) {
        list.push(text)
    } else {
        insert_sorted(list.drop_last(), text).push(list.last())
    }
}

/// Texts in code point order.
pub open spec fn sorted(list: Seq<Seq<char>>) -> Seq<Seq<char>>
    decreases list.len(),
{
    if list.len() == 0 {
        list
    } else {
        insert_sorted(sorted(list.drop_last()), list.last())
    }
}

/// Whether no text of a list comes before the one in front of it.
pub open spec fn is_sorted(list: Seq<Seq<char>>) -> bool {
    forall|i: int, j: int|
        0 <= i <= j < list.len() ==> text_le(#[trigger] list[i], #[trigger] list[j])
}

proof fn lemma_text_order(a: Seq<char>, b: Seq<char>, c: Seq<char>)
    ensures
        text_le(a, a),
        text_le(a, b) || text_le(b, a),
        text_le(a, b) && text_le(b, c) ==> text_le(a, c),
    decreases a.len(),
{
    if a.len() > 0 {
        lemma_text_order(a.skip(1), b.skip(1), c.skip(1));
    }
}

proof fn lemma_insert_sorted(list: Seq<Seq<char>>, text: Seq<char>)
    requires
        is_sorted(list),
    ensures
        is_sorted(insert_sorted(list, text)),
        insert_sorted(list, text).len() == list.len() + 1,
        insert_sorted(list, text).to_multiset() =~= list.to_multiset().insert(text),
        list.len() > 0 && !text_le(list.last(), text) ==> insert_sorted(list, text).last()
            == list.last(),
        forall|bound: Seq<char>|
            text_le(text, bound) && (forall|i: int|
                0 <= i < list.len() ==> text_le(#[trigger] list[i], bound)) ==> forall|i: int|
                0 <= i < insert_sorted(list, text).len() ==> #[trigger] text_le(
                    insert_sorted(list, text)[i],
                    bound,
                ),
    decreases list.len(),
{
    broadcast use vstd::seq_lib::group_to_multiset_ensures;

    if list.len() == 0 || text_le(list.last(), text) {
        assert forall|i: int, j: int| 0 <= i <= j < list.push(text).len() implies text_le(
            #[trigger] list.push(text)[i],
            #[trigger] list.push(text)[j],
        ) by {
            lemma_text_order(text, text, text);
            if i < list.len() {
                assert(text_le(list[i], list[list.len() - 1]));
                lemma_text_order(list[i], list.last(), text);
            }
        }
    } else {
        let front = list.drop_last();
        let last = list.last();
        let inner = insert_sorted(front, text);
        assert(is_sorted(front)) by {
            assert forall|i: int, j: int| 0 <= i <= j < front.len() implies text_le(
                #[trigger] front[i],
                #[trigger] front[j],
            ) by {
                assert(front[i] == list[i] && front[j] == list[j]);
            }
        }
        lemma_insert_sorted(front, text);
        lemma_text_order(last, text, last);
        assert forall|i: int| 0 <= i < front.len() implies text_le(#[trigger] front[i], last) by {
            assert(front[i] == list[i]);
            assert(last == list[list.len() - 1]);
        }
        let whole = inner.push(last);
        assert forall|i: int, j: int| 0 <= i <= j < whole.len() implies text_le(
            #[trigger] whole[i],
            #[trigger] whole[j],
        ) by {
            if j == inner.len() && i < inner.len() {
                assert(text_le(inner[i], last));
            } else if i < inner.len() {
                assert(whole[i] == inner[i] && whole[j] == inner[j]);
            }
        }
        assert(list =~= front.push(last));
        assert forall|bound: Seq<char>|
            text_le(text, bound) && (forall|i: int|
                0 <= i < list.len() ==> text_le(
                    #[trigger] list[i],
                    bound,
                )) implies forall|i: int|
            0 <= i < whole.len() ==> #[trigger] text_le(whole[i], bound) by {
            assert forall|i: int| 0 <= i < front.len() implies text_le(
                #[trigger] front[i],
                bound,
            ) by {
                assert(front[i] == list[i]);
            }
            assert forall|i: int| 0 <= i < whole.len() implies #[trigger] text_le(
                whole[i],
                bound,
            ) by {
                if i < inner.len() {
                    assert(whole[i] == inner[i]);
                    assert(text_le(inner[i], bound));
                } else {
                    assert(text_le(list[list.len() - 1], bound));
                }
            }
        }
    }
}

/// Sorting puts texts in order and neither adds nor loses any.
pub proof fn law_sorting(list: Seq<Seq<char>>)
    ensures
        is_sorted(sorted(list)),
        sorted(list).to_multiset() == list.to_multiset(),
    decreases list.len(),
{
    broadcast use vstd::seq_lib::group_to_multiset_ensures;

    if list.len() > 0 {
        law_sorting(list.drop_last());
        lemma_insert_sorted(sorted(list.drop_last()), list.last());
        assert(list =~= list.drop_last().push(list.last()));
    }
}

// ---------------------------------------------------------------------------------------
// Computing with text
// ---------------------------------------------------------------------------------------
/// The characters of a string.
pub fn chars_of(s: &str) -> (chars: Vec<char>)
    ensures
        chars@ == s@,
{
    let mut chars: Vec<char> = Vec::new();
    for c in it: s.chars()
        invariant
            it.seq() == s@,
            chars@ == it.seq().take(it.index() as int),
    {
        chars.push(c);
    }
    chars
}

/// The string that part of a list of characters spells.
pub fn string_of(chars: &Vec<char>, from: usize, to: usize) -> (s: String)
    requires
        from <= to <= chars@.len(),
    ensures
        s@ == chars@.subrange(from as int, to as int),
{
    let mut s = String::new();
    let mut i: usize = from;
    while i < to
        invariant
            from <= i <= to <= chars@.len(),
            s@ == chars@.subrange(from as int, i as int),
        decreases to - i,
    {
        s.push(chars[i]);
        i = i + 1;
    }
    s
}

/// The ASCII small letter for an ASCII capital letter; any other character as it is.
pub fn lower_char(c: char) -> (lowered: char)
    ensures
        lowered == ascii_lower(c),
{
    if 'A' <= c && c <= 'Z' {
        ((c as u8) + 32u8) as char
    } else {
        c
    }
}

/// The string with ASCII capital letters turned into small letters.
pub fn to_lower(s: &str) -> (lowered: String)
    ensures
        lowered@ == lower(s@),
{
    let mut lowered = String::new();
    for c in it: s.chars()
        invariant
            it.seq() == s@,
            lowered@ == lower(s@.take(it.index() as int)),
    {
        lowered.push(lower_char(c));
    }
    assert(s@.take(s@.len() as int) =~= s@);
    lowered
}

/// Whether two strings are equal but for the case of ASCII letters.
pub fn same_ignoring_case(a: &str, b: &str) -> (same: bool)
    ensures
        same == (lower(a@) == lower(b@)),
{
    to_lower(a) == to_lower(b)
}

/// Whether a character is white space.
pub fn is_space_char(c: char) -> (space: bool)
    ensures
        space == is_space(c),
{
    let n: u32 = c as u32;
    (0x9 <= n && n <= 0xd) || n == 0x20 || n == 0x85 || n == 0xa0 || n == 0x1680 || (0x2000 <= n
        && n <= 0x200a) || n == 0x2028 || n == 0x2029 || n == 0x202f || n == 0x205f || n == 0x3000
}

/// The bounds of what is left of a range of characters without the white space around it.
pub fn trim_range(chars: &Vec<char>, from: usize, to: usize) -> (bounds: (usize, usize))
    requires
        from <= to <= chars@.len(),
    ensures
        from <= bounds.0 <= bounds.1 <= to,
        chars@.subrange(bounds.0 as int, bounds.1 as int) == trim(
            chars@.subrange(from as int, to as int),
        ),
{
    let mut lo: usize = from;
    while lo < to && is_space_char(chars[lo])
        invariant
            from <= lo <= to <= chars@.len(),
            trim_start(chars@.subrange(from as int, to as int)) == trim_start(
                chars@.subrange(lo as int, to as int),
            ),
        decreases to - lo,
    {
        assert(chars@.subrange(lo as int, to as int).skip(1) =~= chars@.subrange(
            lo + 1,
            to as int,
        ));
        lo = lo + 1;
    }
    let mut hi: usize = to;
    while lo < hi && is_space_char(chars[hi - 1])
        invariant
            lo <= hi <= to <= chars@.len(),
            trim_end(chars@.subrange(lo as int, to as int)) == trim_end(
                chars@.subrange(lo as int, hi as int),
            ),
        decreases hi - lo,
    {
        assert(chars@.subrange(lo as int, hi as int).drop_last() =~= chars@.subrange(
            lo as int,
            hi - 1,
        ));
        hi = hi - 1;
    }
    (lo, hi)
}

/// The string without the white space around it.
pub fn trimmed(s: &str) -> (inner: String)
    ensures
        inner@ == trim(s@),
{
    let chars = chars_of(s);
    let bounds = trim_range(&chars, 0, chars.len());
    assert(chars@.subrange(0, chars@.len() as int) =~= s@);
    string_of(&chars, bounds.0, bounds.1)
}

/// The parts of a string between the occurrences of a separator.
pub fn split_on(s: &str, separator: char) -> (parts: Vec<String>)
    ensures
        texts(parts@) == split(s@, separator),
        parts@.len() >= 1,
{
    let mut parts: Vec<String> = Vec::new();
    let mut part = String::new();
    for c in it: s.chars()
        invariant
            it.seq() == s@,
            texts(parts@).push(part@) == split(s@.take(it.index() as int), separator),
    {
        proof {
            let k = it.index() as int;
            assert(s@.take(k + 1).drop_last() =~= s@.take(k));
            assert(texts(parts@).push(part@).drop_last() =~= texts(parts@));
        }
        if c == separator {
            let done = part;
            let ghost before = parts@;
            parts.push(done);
            part = String::new();
            assert(texts(parts@) =~= texts(before).push(done@));
        } else {
            part.push(c);
        }
    }
    assert(s@.take(s@.len() as int) =~= s@);
    let ghost before = parts@;
    parts.push(part);
    assert(texts(parts@) =~= texts(before).push(part@));
    parts
}

/// The words of part of a list of characters: its maximal runs without white space.
pub fn split_words(s: &str) -> (found: Vec<String>)
    ensures
        texts(found@) == words(s@),
{
    let mut found: Vec<String> = Vec::new();
    let mut word = String::new();
    let mut inside: bool = false;
    for c in it: s.chars()
        invariant
            it.seq() == s@,
            inside == (it.index() > 0 && !is_space(s@[it.index() - 1])),
            inside ==> texts(found@).push(word@) == words(s@.take(it.index() as int)),
            !inside ==> texts(found@) == words(s@.take(it.index() as int)) && word@.len() == 0,
    {
        proof {
            let k = it.index() as int;
            assert(s@.take(k + 1).drop_last() =~= s@.take(k));
            assert(texts(found@).push(word@).drop_last() =~= texts(found@));
            assert(word@.len() == 0 ==> word@.push(c) =~= seq![c]);
        }
        if is_space_char(c) {
            if inside {
                let ghost before = found@;
                let done = word;
                found.push(done);
                assert(texts(found@) =~= texts(before).push(done@));
                word = String::new();
            }
            inside = false;
        } else {
            word.push(c);
            inside = true;
        }
    }
    assert(s@.take(s@.len() as int) =~= s@);
    if inside {
        let ghost before = found@;
        found.push(word);
        assert(texts(found@) =~= texts(before).push(word@));
    }
    found
}

/// Strings put one after the other with a separator between them.
pub fn join_all(parts: &Vec<String>, separator: &str) -> (joined: String)
    ensures
        joined@ == join(texts(parts@), separator@),
{
    let mut joined = String::new();
    let mut i: usize = 0;
    while i < parts.len()
        invariant
            i <= parts@.len(),
            joined@ == join(texts(parts@).take(i as int), separator@),
        decreases parts@.len() - i,
    {
        assert(texts(parts@).take(i + 1).drop_last() =~= texts(parts@).take(i as int));
        if i > 0 {
            joined.append(separator);
        }
        joined.append(parts[i].as_str());
        i = i + 1;
    }
    assert(texts(parts@).take(i as int) =~= texts(parts@));
    joined
}

/// The string with every occurrence of one character replaced.
pub fn replace_char(s: &str, from: char, to: &str) -> (replaced: String)
    ensures
        replaced@ == replace(s@, from, to@),
{
    let mut replaced = String::new();
    for c in it: s.chars()
        invariant
            it.seq() == s@,
            replaced@ == replace(s@.take(it.index() as int), from, to@),
    {
        assert(s@.take(it.index() + 1).drop_last() =~= s@.take(it.index() as int));
        if c == from {
            replaced.append(to);
        } else {
            replaced.push(c);
        }
    }
    assert(s@.take(s@.len() as int) =~= s@);
    replaced
}

/// Whether a pattern stands at the given position.
pub fn matches_at(chars: &Vec<char>, pattern: &Vec<char>, at: usize) -> (matches: bool)
    requires
        at + pattern@.len() <= chars@.len(),
    ensures
        matches == occurs_at(chars@, pattern@, at as int),
{
    let total: usize = chars.len();
    let mut i: usize = 0;
    while i < pattern.len()
        invariant
            i <= pattern@.len(),
            at + pattern@.len() <= total,
            total == chars@.len(),
            forall|k: int| 0 <= k < i ==> chars@[at + k] == #[trigger] pattern@[k],
        decreases pattern@.len() - i,
    {
        if chars[at + i] != pattern[i] {
            assert(chars@.subrange(at as int, at + pattern@.len())[i as int] != pattern@[i as int]);
            return false;
        }
        i = i + 1;
    }
    assert(chars@.subrange(at as int, at + pattern@.len()) =~= pattern@);
    true
}

/// The first position from `from` on at which a pattern stands.
pub fn find_chars(chars: &Vec<char>, pattern: &Vec<char>, from: usize) -> (at: Option<usize>)
    requires
        from <= chars@.len(),
    ensures
        match at {
            Some(at) => find_from(chars@, pattern@, from as int) == Some(at as int),
            None => find_from(chars@, pattern@, from as int) is None,
        },
        at matches Some(at) ==> from <= at && at + pattern@.len() <= chars@.len(),
{
    let mut at: usize = from;
    while at <= chars.len() && chars.len() - at >= pattern.len()
        invariant
            from <= at,
            find_from(chars@, pattern@, from as int) == find_from(chars@, pattern@, at as int),
        decreases chars@.len() + 1 - at,
    {
        if matches_at(chars, pattern, at) {
            return Some(at);
        }
        if at == chars.len() {
            proof {
                reveal_with_fuel(find_from, 2);
            }
            return None;
        }
        at = at + 1;
    }
    None
}

/// Finding a pattern from some position on tells whether it stands there or later.
pub proof fn lemma_find_from(s: Seq<char>, pattern: Seq<char>, from: int)
    requires
        0 <= from,
    ensures
        match find_from(s, pattern, from) {
            Some(at) => from <= at && occurs_at(s, pattern, at) && forall|k: int|
                from <= k < at ==> !#[trigger] occurs_at(s, pattern, k),
            None => forall|k: int| from <= k ==> !#[trigger] occurs_at(s, pattern, k),
        },
    decreases s.len() - from + 1,
{
    if from + pattern.len() <= s.len() && !occurs_at(s, pattern, from) {
        lemma_find_from(s, pattern, from + 1);
    }
}

/// Whether a pattern stands anywhere in a string.
pub fn contains_text(s: &str, pattern: &str) -> (found: bool)
    ensures
        found == contains(s@, pattern@),
{
    let chars = chars_of(s);
    let wanted = chars_of(pattern);
    proof {
        lemma_find_from(s@, pattern@, 0);
    }
    match find_chars(&chars, &wanted, 0) {
        Some(_) => true,
        None => false,
    }
}

/// A natural number in decimal notation.
pub fn decimal_text(n: u64) -> (s: String)
    ensures
        s@ == decimal(n as nat),
    decreases n,
{
    if n < 10 {
        let mut s = String::new();
        s.push((48u8 + n as u8) as char);
        assert(s@ =~= seq![digit(n as int)]);
        s
    } else {
        let mut s = decimal_text(n / 10);
        s.push((48u8 + (n % 10) as u8) as char);
        s
    }
}

/// An integer in decimal notation.
pub fn signed_decimal_text(n: i64) -> (s: String)
    ensures
        s@ == signed_decimal(n as int),
{
    if n < 0 {
        let magnitude: u64 = (-(n as i128)) as u64;
        let mut s = String::new();
        s.push('-');
        assert(s@ =~= seq!['-']);
        let digits = decimal_text(magnitude);
        s.append(digits.as_str());
        s
    } else {
        decimal_text(n as u64)
    }
}

/// The strings in code point order.
pub fn sorted_list(list: &Vec<String>) -> (in_order: Vec<String>)
    ensures
        texts(in_order@) == sorted(texts(list@)),
{
    let mut in_order: Vec<String> = Vec::new();
    let mut i: usize = 0;
    assert(texts(in_order@) =~= sorted(texts(list@).take(0)));
    while i < list.len()
        invariant
            i <= list@.len(),
            texts(in_order@) == sorted(texts(list@).take(i as int)),
        decreases list@.len() - i,
    {
        assert(texts(list@).take(i + 1).drop_last() =~= texts(list@).take(i as int));
        insert_in_order(&mut in_order, list[i].clone());
        i = i + 1;
    }
    assert(texts(list@).take(i as int) =~= texts(list@));
    in_order
}

/// Puts a string in its place in a sorted list.
fn insert_in_order(list: &mut Vec<String>, text: String)
    ensures
        texts(final(list)@) == insert_sorted(texts(old(list)@), text@),
{
    let ghost before = texts(list@);
    let mut at: usize = list.len();
    assert(before.take(at as int) =~= before);
    assert(insert_sorted(before, text@) =~= insert_sorted(before.take(at as int), text@)
        + before.skip(at as int));
    while at > 0 && !comes_no_later(list[at - 1].as_str(), text.as_str())
        invariant
            at <= list@.len(),
            before == texts(list@),
            insert_sorted(before, text@) == insert_sorted(before.take(at as int), text@)
                + before.skip(at as int),
        decreases at,
    {
        proof {
            let front = before.take(at as int);
            assert(front.drop_last() =~= before.take(at - 1));
            assert(front.last() == before[at - 1]);
            assert(insert_sorted(before.take(at - 1), text@).push(front.last())
                + before.skip(at as int) =~= insert_sorted(before.take(at - 1), text@)
                + before.skip(at - 1));
        }
        at = at - 1;
    }
    assert(at > 0 ==> before.take(at as int).last() == before[at - 1]);
    list.insert(at, text);
    assert(texts(list@) =~= before.take(at as int).push(text@) + before.skip(at as int));
}

/// Whether one string comes no later than another in code point order.
pub fn comes_no_later(a: &str, b: &str) -> (le: bool)
    ensures
        le == text_le(a@, b@),
{
    let left = chars_of(a);
    let right = chars_of(b);
    let mut i: usize = 0;
    assert(left@.skip(0) =~= a@);
    assert(right@.skip(0) =~= b@);
    while i < left.len()
        invariant
            i <= left@.len(),
            i <= right@.len(),
            left@ == a@,
            right@ == b@,
            text_le(a@, b@) == text_le(left@.skip(i as int), right@.skip(i as int)),
        decreases left@.len() - i,
    {
        if i == right.len() {
            return false;
        }
        if left[i] != right[i] {
            let here: char = left[i];
            let there: char = right[i];
            return here < there;
        }
        assert(left@.skip(i as int).skip(1) =~= left@.skip(i + 1));
        assert(right@.skip(i as int).skip(1) =~= right@.skip(i + 1));
        i = i + 1;
    }
    true
}

} // verus!

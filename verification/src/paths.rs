//! Which files a pattern stands for, and which of them are opened.
use crate::text::{
    chars_of, decimal, decimal_text, find, find_chars, lower, signed_decimal, signed_decimal_text,
    string_of, texts, to_lower,
};
use vstd::prelude::*;

verus! {

/// A file format.
#[derive(Debug, Clone, Copy, PartialEq, Eq, Structural)]
pub enum Format {
    Pds,
    Motec,
    Vbo,
    Aimd,
}

impl Format {
    /// The name under which the format is reported.
    pub open spec fn label(self) -> Seq<char> {
        match self {
            Format::Pds => "pds"@,
            Format::Motec => "motec"@,
            Format::Vbo => "vbo"@,
            Format::Aimd => "aimd"@,
        }
    }

    /// The name under which the format is reported.
    pub fn name(self) -> (name: &'static str)
        ensures
            name@ == self.label(),
    {
        match self {
            Format::Pds => "pds",
            Format::Motec => "motec",
            Format::Vbo => "vbo",
            Format::Aimd => "aimd",
        }
    }
}

/// The format that the extension of a path stands for, whatever its case.
pub open spec fn format_of(extension: Seq<char>) -> Option<Format> {
    if lower(extension) == "pds"@ {
        Some(Format::Pds)
    } else if lower(extension) == "ld"@ {
        Some(Format::Motec)
    } else if lower(extension) == "vbo"@ {
        Some(Format::Vbo)
    } else if lower(extension) == "mp4"@ {
        Some(Format::Aimd)
    } else {
        None
    }
}

/// A pattern with part of it replaced.
pub open spec fn with_extension(
    pattern: Seq<char>,
    start: int,
    width: int,
    extension: Seq<char>,
) -> Seq<char> {
    pattern.take(start) + extension + pattern.skip(start + width)
}

/// The extensions that a list in braces may name, all four or the first three.
pub open spec fn four_braces() -> Seq<char> {
    "{pds,ld,vbo,mp4}"@
}

/// The extensions that a list in braces may name, without the last.
pub open spec fn three_braces() -> Seq<char> {
    "{pds,ld,vbo}"@
}

/// The patterns that a pattern with a list of extensions in braces stands for.
pub open spec fn patterns_of(pattern: Seq<char>) -> Seq<Seq<char>> {
    match find(pattern, four_braces()) {
        Some(start) => {
            let width = four_braces().len() as int;
            seq![
                with_extension(pattern, start, width, "pds"@),
                with_extension(pattern, start, width, "ld"@),
                with_extension(pattern, start, width, "vbo"@),
                with_extension(pattern, start, width, "mp4"@),
            ]
        },
        None => match find(pattern, three_braces()) {
            Some(start) => {
                let width = three_braces().len() as int;
                seq![
                    with_extension(pattern, start, width, "pds"@),
                    with_extension(pattern, start, width, "ld"@),
                    with_extension(pattern, start, width, "vbo"@),
                ]
            },
            None => seq![pattern],
        },
    }
}

/// Whether a character of a pattern stands for others.
pub open spec fn is_wild(c: char) -> bool {
    c == '*' || c == '?' || c == '['
}

/// Whether a pattern stands for other paths than itself.
pub open spec fn has_wild(pattern: Seq<char>) -> bool {
    exists|i: int| 0 <= i < pattern.len() && is_wild(#[trigger] pattern[i])
}

/// Whether a pattern stands for other paths than itself, by characters or by braces.
pub open spec fn has_magic_in(pattern: Seq<char>) -> bool {
    exists|i: int|
        0 <= i < pattern.len() && (is_wild(#[trigger] pattern[i]) || pattern[i] == '{')
}

/// Whether the time of a file lies in a span; the end does not belong to it.
pub open spec fn created_between(created: i64, from: Option<i64>, to: Option<i64>) -> bool {
    &&& from matches Some(from) ==> from <= created
    &&& to matches Some(to) ==> created < to
}

/// The format that the extension of a path stands for. A path without an extension has none.
pub fn format_of_extension(extension: Option<&str>) -> (format: Option<Format>)
    ensures
        format == (match extension {
            Some(extension) => format_of(extension@),
            None => None,
        }),
{
    match extension {
        Some(extension) => {
            let key = to_lower(extension);
            if *key.as_str() == *"pds" {
                Some(Format::Pds)
            } else if *key.as_str() == *"ld" {
                Some(Format::Motec)
            } else if *key.as_str() == *"vbo" {
                Some(Format::Vbo)
            } else if *key.as_str() == *"mp4" {
                Some(Format::Aimd)
            } else {
                None
            }
        },
        None => None,
    }
}

/// The reader for the summary of a file, or what is wrong with its extension.
pub fn metadata_format(extension: Option<&str>) -> (format: Result<Format, String>)
    ensures
        ({
            let text = match extension {
                Some(extension) => lower(extension@),
                None => Seq::empty(),
            };
            let known = match extension {
                Some(extension) => format_of(extension@),
                None => None,
            };
            match format {
                Ok(format) => known == Some(format),
                Err(message) => known is None && message@ == "unsupported telemetry extension "@
                    + text,
            }
        }),
{
    match format_of_extension(extension) {
        Some(format) => Ok(format),
        None => {
            let mut message = "unsupported telemetry extension ".to_owned();
            if let Some(extension) = extension {
                let key = to_lower(extension);
                message.append(key.as_str());
            }
            assert(message@ =~= "unsupported telemetry extension "@ + match extension {
                Some(extension) => lower(extension@),
                None => Seq::empty(),
            });
            Err(message)
        },
    }
}

/// Appends a pattern with part of it replaced.
fn push_pattern(
    patterns: &mut Vec<String>,
    chars: &Vec<char>,
    start: usize,
    width: usize,
    extension: &str,
)
    requires
        start + width <= chars@.len(),
    ensures
        texts(final(patterns)@) == texts(old(patterns)@).push(
            with_extension(chars@, start as int, width as int, extension@),
        ),
{
    let ghost before = patterns@;
    let total: usize = chars.len();
    let mut pattern = string_of(chars, 0, start);
    pattern.append(extension);
    let tail = string_of(chars, start + width, total);
    pattern.append(tail.as_str());
    assert(pattern@ =~= with_extension(chars@, start as int, width as int, extension@));
    patterns.push(pattern);
    assert(texts(patterns@) =~= texts(before).push(pattern@));
}

/// The patterns that a pattern with a list of extensions in braces stands for.
pub fn expand_pattern(pattern: &str) -> (patterns: Vec<String>)
    ensures
        texts(patterns@) == patterns_of(pattern@),
{
    let chars = chars_of(pattern);
    let four = chars_of("{pds,ld,vbo,mp4}");
    let three = chars_of("{pds,ld,vbo}");
    let mut patterns: Vec<String> = Vec::new();
    assert(texts(patterns@) =~= Seq::empty());
    if let Some(start) = find_chars(&chars, &four, 0) {
        let width: usize = four.len();
        push_pattern(&mut patterns, &chars, start, width, "pds");
        push_pattern(&mut patterns, &chars, start, width, "ld");
        push_pattern(&mut patterns, &chars, start, width, "vbo");
        push_pattern(&mut patterns, &chars, start, width, "mp4");
    } else if let Some(start) = find_chars(&chars, &three, 0) {
        let width: usize = three.len();
        push_pattern(&mut patterns, &chars, start, width, "pds");
        push_pattern(&mut patterns, &chars, start, width, "ld");
        push_pattern(&mut patterns, &chars, start, width, "vbo");
    } else {
        patterns.push(pattern.to_owned());
    }
    assert(texts(patterns@) =~= patterns_of(pattern@));
    patterns
}

/// Whether a pattern stands for other paths than itself.
pub fn is_wild_pattern(pattern: &str) -> (wild: bool)
    ensures
        wild == has_wild(pattern@),
{
    let chars = chars_of(pattern);
    let mut i: usize = 0;
    while i < chars.len()
        invariant
            i <= chars@.len(),
            chars@ == pattern@,
            forall|k: int| 0 <= k < i ==> !is_wild(#[trigger] pattern@[k]),
        decreases chars@.len() - i,
    {
        let c: char = chars[i];
        if c == '*' || c == '?' || c == '[' {
            assert(is_wild(pattern@[i as int]));
            return true;
        }
        i = i + 1;
    }
    false
}

/// Whether a pattern stands for other paths than itself, by characters or by braces. Only
/// telemetry files are kept of what such a pattern matches.
pub fn has_magic(pattern: &str) -> (magic: bool)
    ensures
        magic == has_magic_in(pattern@),
{
    let chars = chars_of(pattern);
    let mut i: usize = 0;
    while i < chars.len()
        invariant
            i <= chars@.len(),
            chars@ == pattern@,
            forall|k: int| 0 <= k < i ==> !is_wild(#[trigger] pattern@[k]) && pattern@[k] != '{',
        decreases chars@.len() - i,
    {
        let c: char = chars[i];
        if c == '*' || c == '?' || c == '[' || c == '{' {
            assert(is_wild(pattern@[i as int]) || pattern@[i as int] == '{');
            return true;
        }
        i = i + 1;
    }
    false
}

/// The format in which a file is opened: none if it is no telemetry file, has another format
/// than is required, or was created outside the span that is asked for.
pub fn opened_format(
    extension: Option<&str>,
    required: Option<Format>,
    created: i64,
    from: Option<i64>,
    to: Option<i64>,
) -> (format: Option<Format>)
    ensures
        ({
            let own = match extension {
                Some(extension) => format_of(extension@),
                None => None,
            };
            format == (if (required is Some && own is Some && own != required) || !created_between(
                created,
                from,
                to,
            ) {
                None
            } else {
                own
            })
        }),
{
    let own = match format_of_extension(extension) {
        Some(own) => own,
        None => return None,
    };
    if let Some(required) = required {
        if required != own {
            return None;
        }
    }
    if let Some(from) = from {
        if created < from {
            return None;
        }
    }
    if let Some(to) = to {
        if created >= to {
            return None;
        }
    }
    Some(own)
}

/// Checks that a span of creation times does not end before it starts.
pub fn check_create_dates(from: Option<i64>, to: Option<i64>) -> (checked: Result<(), String>)
    ensures
        ({
            let backwards = from is Some && to is Some && to->0 < from->0;
            match checked {
                Ok(_) => !backwards,
                Err(message) => backwards && message@
                    == "create_date_to must be greater than or equal to create_date_from"@,
            }
        }),
{
    if let (Some(from), Some(to)) = (from, to) {
        if to < from {
            return Err(
                "create_date_to must be greater than or equal to create_date_from".to_owned(),
            );
        }
    }
    Ok(())
}

/// The message for a pattern that matches no telemetry file.
pub fn nothing_matched(pattern: &str) -> (message: String)
    ensures
        message@ == "no telemetry files matched "@ + pattern@,
{
    let mut message = "no telemetry files matched ".to_owned();
    message.append(pattern);
    message
}

/// Checks that any of the files that a pattern stands for was opened.
pub fn check_opened(pattern: &str, opened: usize) -> (checked: Result<(), String>)
    ensures
        match checked {
            Ok(_) => opened > 0,
            Err(message) => opened == 0 && message@
                == "no telemetry files remained after format/date pruning for "@ + pattern@,
        },
{
    if opened > 0 {
        return Ok(());
    }
    let mut message = "no telemetry files remained after format/date pruning for ".to_owned();
    message.append(pattern);
    Err(message)
}

// ---------------------------------------------------------------------------------------
// The files that were found
// ---------------------------------------------------------------------------------------
/// A step of a path: what sort of step it is, and the bytes of its name.
#[derive(Debug, Clone)]
pub struct Step {
    pub rank: u8,
    pub name: Vec<u8>,
}

/// A path that was found.
#[derive(Debug, Clone)]
pub struct FoundPath {
    pub steps: Vec<Step>,
    pub extension: Option<String>,
}

/// What the steps of a path are.
pub open spec fn steps_of(path: FoundPath) -> Seq<(u8, Seq<u8>)> {
    Seq::new(path.steps@.len(), |i: int| (path.steps@[i].rank, path.steps@[i].name@))
}

/// Whether bytes come before others: the first that differs is smaller, or they are the
/// beginning of the others.
pub open spec fn bytes_before(a: Seq<u8>, b: Seq<u8>) -> bool
    decreases a.len(),
{
    if b.len() == 0 {
        false
    } else if a.len() == 0 {
        true
    } else if a[0] != b[0] {
        a[0] < b[0]
    } else {
        bytes_before(a.skip(1), b.skip(1))
    }
}

/// Whether a step comes before another: by its sort, then by its name.
pub open spec fn step_before(a: (u8, Seq<u8>), b: (u8, Seq<u8>)) -> bool {
    a.0 < b.0 || (a.0 == b.0 && bytes_before(a.1, b.1))
}

/// Whether a path comes before another: the first step that differs comes before the other's,
/// or the path is the beginning of the other.
#[verifier::opaque]
pub open spec fn path_before(a: Seq<(u8, Seq<u8>)>, b: Seq<(u8, Seq<u8>)>) -> bool
    decreases a.len(),
{
    if b.len() == 0 {
        false
    } else if a.len() == 0 {
        true
    } else if a[0] != b[0] {
        step_before(a[0], b[0])
    } else {
        path_before(a.skip(1), b.skip(1))
    }
}

/// Whether a path that was found is kept: any is, unless only telemetry files are.
pub open spec fn is_kept(path: FoundPath, only_telemetry: bool) -> bool {
    only_telemetry ==> (path.extension matches Some(extension) && format_of(extension@) is Some)
}

/// Whether any of the paths that were found is kept.
pub open spec fn keeps_any(found: Seq<FoundPath>, only_telemetry: bool) -> bool {
    exists|k: int| 0 <= k < found.len() && is_kept(#[trigger] found[k], only_telemetry)
}

/// Whether some of the first `count` paths that were found are those that are selected: they are
/// kept, they are in order and no two are the same, every path that is kept is among them, and
/// of paths that are the same the first is.
pub open spec fn are_selected(
    places: Seq<usize>,
    found: Seq<FoundPath>,
    only_telemetry: bool,
    count: int,
) -> bool {
    &&& forall|i: int|
        0 <= i < places.len() ==> (#[trigger] places[i]) < count && is_kept(
            found[places[i] as int],
            only_telemetry,
        )
    &&& are_increasing(places, found)
    &&& forall|k: int|
        0 <= k < count && is_kept(#[trigger] found[k], only_telemetry) ==> is_listed(
            places,
            found,
            k,
        )
}

/// Whether the paths at some places are in order and no two are the same.
pub open spec fn are_increasing(places: Seq<usize>, found: Seq<FoundPath>) -> bool {
    forall|i: int, j: int|
        0 <= i < j < places.len() ==> precedes(found, #[trigger] places[i], #[trigger] places[j])
}

/// Whether the path at a place comes before the one at another.
pub open spec fn precedes(found: Seq<FoundPath>, a: usize, b: usize) -> bool {
    path_before(steps_of(found[a as int]), steps_of(found[b as int]))
}

/// Whether a path is among those at some places: the same path, no later than it.
pub open spec fn is_listed(places: Seq<usize>, found: Seq<FoundPath>, k: int) -> bool {
    exists|i: int|
        0 <= i < places.len() && (#[trigger] places[i]) <= k && steps_of(found[places[i] as int])
            == steps_of(found[k])
}

proof fn lemma_bytes_ordered(a: Seq<u8>, b: Seq<u8>)
    ensures
        a == b || bytes_before(a, b) || bytes_before(b, a),
        !bytes_before(a, a),
        !(bytes_before(a, b) && bytes_before(b, a)),
    decreases a.len(),
{
    if a.len() > 0 {
        lemma_bytes_ordered(a.skip(1), a.skip(1));
    }
    if a.len() > 0 && b.len() > 0 {
        lemma_bytes_ordered(a.skip(1), b.skip(1));
        if a[0] == b[0] && a.skip(1) == b.skip(1) {
            assert(a =~= b) by {
                assert forall|i: int| 0 <= i < a.len() implies a[i] == b[i] by {
                    if i > 0 {
                        assert(a.skip(1)[i - 1] == b.skip(1)[i - 1]);
                    }
                }
                assert(a.skip(1).len() == b.skip(1).len());
            }
        }
    } else if a.len() == 0 && b.len() == 0 {
        assert(a =~= b);
    }
}

proof fn lemma_bytes_transitive(a: Seq<u8>, b: Seq<u8>, c: Seq<u8>)
    requires
        bytes_before(a, b),
        bytes_before(b, c),
    ensures
        bytes_before(a, c),
    decreases a.len(),
{
    if a.len() > 0 && a[0] == b[0] && b[0] == c[0] {
        lemma_bytes_transitive(a.skip(1), b.skip(1), c.skip(1));
    }
}

proof fn lemma_paths_ordered(a: Seq<(u8, Seq<u8>)>, b: Seq<(u8, Seq<u8>)>)
    ensures
        a == b || path_before(a, b) || path_before(b, a),
        !path_before(a, a),
        !(path_before(a, b) && path_before(b, a)),
    decreases a.len(),
{
    reveal_with_fuel(path_before, 2);
    if a.len() > 0 {
        lemma_paths_ordered(a.skip(1), a.skip(1));
    }
    if a.len() > 0 && b.len() > 0 {
        lemma_bytes_ordered(a[0].1, b[0].1);
        lemma_paths_ordered(a.skip(1), b.skip(1));
        if a[0] == b[0] && a.skip(1) == b.skip(1) {
            assert(a =~= b) by {
                assert forall|i: int| 0 <= i < a.len() implies a[i] == b[i] by {
                    if i > 0 {
                        assert(a.skip(1)[i - 1] == b.skip(1)[i - 1]);
                    }
                }
                assert(a.skip(1).len() == b.skip(1).len());
            }
        }
    } else if a.len() == 0 && b.len() == 0 {
        assert(a =~= b);
    }
}

proof fn lemma_paths_transitive(
    a: Seq<(u8, Seq<u8>)>,
    b: Seq<(u8, Seq<u8>)>,
    c: Seq<(u8, Seq<u8>)>,
)
    requires
        path_before(a, b),
        path_before(b, c),
    ensures
        path_before(a, c),
    decreases a.len(),
{
    reveal_with_fuel(path_before, 2);
    if a.len() > 0 {
        if a[0] == b[0] && b[0] == c[0] {
            lemma_paths_transitive(a.skip(1), b.skip(1), c.skip(1));
        } else if a[0] != b[0] && b[0] != c[0] {
            if a[0].0 == b[0].0 && b[0].0 == c[0].0 {
                lemma_bytes_transitive(a[0].1, b[0].1, c[0].1);
            }
            lemma_bytes_ordered(a[0].1, c[0].1);
        }
    }
}

/// How one thing stands to another in an order.
#[derive(Debug, Clone, Copy, PartialEq, Eq, Structural)]
enum Place {
    Before,
    Same,
    After,
}

/// How bytes stand to others.
fn place_bytes(a: &Vec<u8>, b: &Vec<u8>) -> (place: Place)
    ensures
        place is Before <==> bytes_before(a@, b@),
        place is Same <==> a@ == b@,
{
    let mut i: usize = 0;
    assert(a@.skip(0) =~= a@ && b@.skip(0) =~= b@);
    while i < a.len() && i < b.len()
        invariant
            i <= a@.len(),
            i <= b@.len(),
            bytes_before(a@, b@) == bytes_before(a@.skip(i as int), b@.skip(i as int)),
            forall|k: int| 0 <= k < i ==> a@[k] == b@[k],
        decreases a@.len() - i,
    {
        if a[i] < b[i] {
            return Place::Before;
        }
        if a[i] > b[i] {
            return Place::After;
        }
        assert(a@.skip(i as int).skip(1) =~= a@.skip(i + 1));
        assert(b@.skip(i as int).skip(1) =~= b@.skip(i + 1));
        i = i + 1;
    }
    if i < b.len() {
        Place::Before
    } else if i < a.len() {
        Place::After
    } else {
        assert(a@ =~= b@);
        Place::Same
    }
}

/// How a path stands to another.
fn place_path(a: &FoundPath, b: &FoundPath) -> (place: Place)
    ensures
        place is Before <==> path_before(steps_of(*a), steps_of(*b)),
        place is Same <==> steps_of(*a) == steps_of(*b),
{
    let ghost all_a = steps_of(*a);
    let ghost all_b = steps_of(*b);
    let mut i: usize = 0;
    assert(all_a.skip(0) =~= all_a && all_b.skip(0) =~= all_b);
    while i < a.steps.len() && i < b.steps.len()
        invariant
            all_a == steps_of(*a),
            all_b == steps_of(*b),
            i <= a.steps@.len(),
            i <= b.steps@.len(),
            path_before(all_a, all_b) == path_before(all_a.skip(i as int), all_b.skip(i as int)),
            forall|k: int| 0 <= k < i ==> all_a[k] == all_b[k],
        decreases a.steps@.len() - i,
    {
        reveal_with_fuel(path_before, 2);
        let left = &a.steps[i];
        let right = &b.steps[i];
        assert(all_a.skip(i as int)[0] == (left.rank, left.name@));
        assert(all_b.skip(i as int)[0] == (right.rank, right.name@));
        if left.rank != right.rank {
            assert(all_a[i as int] != all_b[i as int]);
            return if left.rank < right.rank {
                Place::Before
            } else {
                Place::After
            };
        }
        match place_bytes(&left.name, &right.name) {
            Place::Before => {
                proof {
                    lemma_bytes_ordered(left.name@, right.name@);
                    assert(all_a[i as int] != all_b[i as int]);
                }
                return Place::Before;
            },
            Place::After => {
                assert(all_a[i as int] != all_b[i as int]);
                return Place::After;
            },
            Place::Same => {},
        }
        assert(all_a.skip(i as int).skip(1) =~= all_a.skip(i + 1));
        assert(all_b.skip(i as int).skip(1) =~= all_b.skip(i + 1));
        i = i + 1;
    }
    reveal_with_fuel(path_before, 2);
    if i < b.steps.len() {
        assert(all_a.len() != all_b.len());
        Place::Before
    } else if i < a.steps.len() {
        assert(all_a.len() != all_b.len());
        Place::After
    } else {
        assert(all_a =~= all_b);
        Place::Same
    }
}

proof fn lemma_inserted_in_order(places: Seq<usize>, found: Seq<FoundPath>, at: int, k: usize)
    requires
        are_increasing(places, found),
        0 <= at <= places.len(),
        forall|i: int| 0 <= i < at ==> precedes(found, #[trigger] places[i], k),
        at < places.len() ==> precedes(found, k, places[at]),
    ensures
        are_increasing(places.insert(at, k), found),
{
    let after = places.insert(at, k);
    assert forall|i: int, j: int| 0 <= i < j < after.len() implies precedes(
        found,
        #[trigger] after[i],
        #[trigger] after[j],
    ) by {
        if j < at {
            assert(precedes(found, places[i], places[j]));
        } else if j == at {
            assert(precedes(found, places[i], k));
        } else if i < at {
            assert(precedes(found, places[i], places[j - 1]));
        } else if i > at {
            assert(precedes(found, places[i - 1], places[j - 1]));
        } else if j - 1 > at {
            assert(precedes(found, places[at], places[j - 1]));
            lemma_paths_transitive(
                steps_of(found[k as int]),
                steps_of(found[places[at] as int]),
                steps_of(found[places[j - 1] as int]),
            );
        }
    }
}

proof fn lemma_still_listed(places: Seq<usize>, found: Seq<FoundPath>, at: int, k: usize, n: int)
    requires
        0 <= at <= places.len(),
        is_listed(places, found, n) || n == k,
    ensures
        is_listed(places.insert(at, k), found, n),
{
    let after = places.insert(at, k);
    if n == k {
        assert(after[at] == k);
    } else {
        let i = choose|i: int|
            0 <= i < places.len() && (#[trigger] places[i]) <= n && steps_of(
                found[places[i] as int],
            ) == steps_of(found[n]);
        if i < at {
            assert(after[i] == places[i]);
        } else {
            assert(after[i + 1] == places[i]);
        }
    }
}

proof fn lemma_inserted(
    places: Seq<usize>,
    found: Seq<FoundPath>,
    only_telemetry: bool,
    at: int,
    k: usize,
)
    requires
        are_selected(places, found, only_telemetry, k as int),
        k < found.len(),
        is_kept(found[k as int], only_telemetry),
        0 <= at <= places.len(),
        forall|i: int| 0 <= i < at ==> precedes(found, #[trigger] places[i], k),
        at < places.len() ==> precedes(found, k, places[at]),
    ensures
        are_selected(places.insert(at, k), found, only_telemetry, k + 1),
{
    let after = places.insert(at, k);
    assert forall|i: int| 0 <= i < after.len() implies (#[trigger] after[i]) < k + 1 && is_kept(
        found[after[i] as int],
        only_telemetry,
    ) by {
        if i < at {
            assert(after[i] == places[i]);
        } else if i > at {
            assert(after[i] == places[i - 1]);
        }
    }
    lemma_inserted_in_order(places, found, at, k);
    assert forall|n: int|
        0 <= n < k + 1 && is_kept(#[trigger] found[n], only_telemetry) implies is_listed(
        after,
        found,
        n,
    ) by {
        lemma_still_listed(places, found, at, k, n);
    }
}

/// The places of the paths that are selected among those that were found: in order, each path
/// once, and of other files than telemetry only where they are wanted.
pub fn select_paths(found: &Vec<FoundPath>, only_telemetry: bool) -> (places: Vec<usize>)
    ensures
        are_selected(places@, found@, only_telemetry, found@.len() as int),
{
    let mut places: Vec<usize> = Vec::new();
    let mut k: usize = 0;
    while k < found.len()
        invariant
            k <= found@.len(),
            are_selected(places@, found@, only_telemetry, k as int),
        decreases found@.len() - k,
    {
        let path = &found[k];
        let extension: Option<&str> = match &path.extension {
            Some(extension) => Some(extension.as_str()),
            None => None,
        };
        let kept: bool = !only_telemetry || format_of_extension(extension).is_some();
        assert(kept == is_kept(found@[k as int], only_telemetry));
        if kept {
            let mut at: usize = 0;
            let mut place = Place::After;
            while at < places.len() && place == Place::After
                invariant
                    k < found@.len(),
                    *path == found@[k as int],
                    at <= places@.len(),
                    are_selected(places@, found@, only_telemetry, k as int),
                    forall|i: int| 0 <= i < at ==> precedes(found@, #[trigger] places@[i], k),
                    place is Same ==> at < places@.len() && steps_of(found@[k as int]) == steps_of(
                        found@[places@[at as int] as int],
                    ),
                    place is Before ==> at < places@.len() && precedes(
                        found@,
                        k,
                        places@[at as int],
                    ),
                decreases
                        places@.len() - at,
                        if place is After {
                            1int
                        } else {
                            0int
                        },
            {
                assert(places@[at as int] < k);
                place = place_path(path, &found[places[at]]);
                if place == Place::After {
                    proof {
                        lemma_paths_ordered(
                            steps_of(found@[k as int]),
                            steps_of(found@[places@[at as int] as int]),
                        );
                    }
                    at = at + 1;
                }
            }
            if place == Place::Same {
                proof {
                    assert forall|n: int|
                        0 <= n < k + 1 && is_kept(
                            #[trigger] found@[n],
                            only_telemetry,
                        ) implies is_listed(places@, found@, n) by {
                        if n == k {
                            assert(places@[at as int] <= k);
                        }
                    }
                }
            } else {
                proof {
                    lemma_inserted(places@, found@, only_telemetry, at as int, k);
                }
                places.insert(at, k);
            }
        }
        k = k + 1;
    }
    places
}

/// The places of the files that a pattern stands for among the paths that were found for it.
/// Other files than telemetry are left out of what a pattern matches that stands for other paths
/// than itself.
pub fn expand_paths(pattern: &str, found: &Vec<FoundPath>) -> (places: Result<Vec<usize>, String>)
    ensures
        match places {
            Ok(places) => keeps_any(found@, has_magic_in(pattern@)) && are_selected(
                places@,
                found@,
                has_magic_in(pattern@),
                found@.len() as int,
            ),
            Err(message) => !keeps_any(found@, has_magic_in(pattern@)) && message@
                == "no telemetry files matched "@ + pattern@,
        },
{
    let places = select_paths(found, has_magic(pattern));
    if places.len() == 0 {
        return Err(nothing_matched(pattern));
    }
    assert(is_kept(found@[places@[0] as int], has_magic_in(pattern@)));
    Ok(places)
}

/// The largest file that is read through a virtual file system: four gibibytes.
pub const LARGEST_FILE: i64 = 4_294_967_296;

/// Checks the size that a virtual file system gives for a file.
pub fn check_file_size(path: &str, size: i64) -> (checked: Result<u64, String>)
    ensures
        match checked {
            Ok(checked) => 0 <= size <= 4_294_967_296 && checked == size,
            Err(message) => !(0 <= size <= 4_294_967_296) && message@
                == "invalid or excessive telemetry file size for "@ + path@ + ": "@
                + signed_decimal(size as int),
        },
{
    if size < 0 || size > LARGEST_FILE {
        let mut message = "invalid or excessive telemetry file size for ".to_owned();
        message.append(path);
        message.append(": ");
        let number = signed_decimal_text(size);
        message.append(number.as_str());
        return Err(message);
    }
    Ok(size as u64)
}

/// How much of a file has been read after one more read returned `count`; nothing where that
/// was the last one.
pub fn read_on(read: usize, count: i64) -> (now: Option<usize>)
    ensures
        now == (if count <= 0 {
            None
        } else if read + count > usize::MAX {
            Some(usize::MAX)
        } else {
            Some((read + count) as usize)
        }),
{
    if count <= 0 {
        return None;
    }
    let more: u64 = count as u64;
    if more > (usize::MAX - read) as u64 {
        Some(usize::MAX)
    } else {
        Some(read + more as usize)
    }
}

/// Checks that a file was read to its end.
pub fn check_complete(path: &str, read: usize, size: usize) -> (checked: Result<(), String>)
    ensures
        match checked {
            Ok(_) => read == size,
            Err(message) => read != size && message@ == "short read for "@ + path@ + ": "@
                + decimal(read as nat) + " of "@ + decimal(size as nat) + " bytes"@,
        },
{
    if read == size {
        return Ok(());
    }
    let mut message = "short read for ".to_owned();
    message.append(path);
    message.append(": ");
    let got = decimal_text(read as u64);
    message.append(got.as_str());
    message.append(" of ");
    let wanted = decimal_text(size as u64);
    message.append(wanted.as_str());
    message.append(" bytes");
    Err(message)
}

/// A time in microseconds since 1970, if it is known and not before that, cut off at the largest
/// number that can be reported; else zero.
pub fn system_time_micros(micros: Option<u128>) -> (reported: i64)
    ensures
        reported == (match micros {
            Some(micros) => if micros <= i64::MAX {
                micros as i64
            } else {
                i64::MAX
            },
            None => 0,
        }),
{
    match micros {
        Some(micros) => if micros <= i64::MAX as u128 {
            micros as i64
        } else {
            i64::MAX
        },
        None => 0,
    }
}

} // verus!

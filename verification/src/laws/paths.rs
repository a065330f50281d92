//! What holds of paths and patterns.
use crate::paths::{
    are_selected, bytes_before, created_between, format_of, four_braces, has_magic_in, has_wild,
    is_kept, is_listed, keeps_any, path_before, patterns_of, precedes, steps_of, three_braces,
    Format, FoundPath,
};
use crate::text::{contains, find, lemma_find_from, lower, occurs_at};
use vstd::prelude::*;

verus! {

/// The extension tells the format, whatever the case of its letters.
pub proof fn law_extensions_tell_formats(extension: Seq<char>)
    ensures
        format_of(extension) == Some(Format::Pds) <==> lower(extension) == "pds"@,
        format_of(extension) == Some(Format::Motec) <==> lower(extension) == "ld"@,
        format_of(extension) == Some(Format::Vbo) <==> lower(extension) == "vbo"@,
        format_of(extension) == Some(Format::Aimd) <==> lower(extension) == "mp4"@,
{
    reveal_strlit("pds");
    reveal_strlit("ld");
    reveal_strlit("vbo");
    reveal_strlit("mp4");
    assert("pds"@[0] == 'p' && "ld"@.len() == 2 && "vbo"@[0] == 'v' && "mp4"@[0] == 'm');
}

/// Formats are reported by their names.
pub proof fn law_names_of_formats(format: Format)
    ensures
        format.label() == (match format {
            Format::Pds => "pds"@,
            Format::Motec => "motec"@,
            Format::Vbo => "vbo"@,
            Format::Aimd => "aimd"@,
        }),
{
}

/// Whether something is the first of its kind in a text: it stands there behind some text and
/// nowhere before.
pub open spec fn is_first_in(
    pattern: Seq<char>,
    before: Seq<char>,
    braces: Seq<char>,
    after: Seq<char>,
) -> bool {
    &&& pattern == before + braces + after
    &&& forall|k: int| 0 <= k < before.len() ==> !#[trigger] occurs_at(pattern, braces, k)
}

proof fn lemma_first_in(
    pattern: Seq<char>,
    before: Seq<char>,
    braces: Seq<char>,
    after: Seq<char>,
)
    requires
        is_first_in(pattern, before, braces, after),
    ensures
        find(pattern, braces) == Some(before.len() as int),
        pattern.take(before.len() as int) == before,
        pattern.skip((before.len() + braces.len()) as int) == after,
{
    let n = before.len() as int;
    assert(pattern.subrange(n, n + braces.len()) =~= braces);
    assert(occurs_at(pattern, braces, n));
    lemma_find_from(pattern, braces, 0);
    assert(pattern.take(n) =~= before);
    assert(pattern.skip(n + braces.len()) =~= after);
}

/// A pattern with the extensions of telemetry in braces stands for one pattern for each of
/// them, in their order; every other pattern stands for itself.
pub proof fn law_braces_stand_for_extensions(
    pattern: Seq<char>,
    before: Seq<char>,
    after: Seq<char>,
)
    ensures
        is_first_in(pattern, before, "{pds,ld,vbo,mp4}"@, after) ==> patterns_of(pattern) == seq![
            before + "pds"@ + after,
            before + "ld"@ + after,
            before + "vbo"@ + after,
            before + "mp4"@ + after,
        ],
        !contains(pattern, "{pds,ld,vbo,mp4}"@) && is_first_in(
            pattern,
            before,
            "{pds,ld,vbo}"@,
            after,
        ) ==> patterns_of(pattern) == seq![
            before + "pds"@ + after,
            before + "ld"@ + after,
            before + "vbo"@ + after,
        ],
        !contains(pattern, "{pds,ld,vbo,mp4}"@) && !contains(pattern, "{pds,ld,vbo}"@)
            ==> patterns_of(pattern) == seq![pattern],
{
    lemma_find_from(pattern, four_braces(), 0);
    lemma_find_from(pattern, three_braces(), 0);
    if is_first_in(pattern, before, "{pds,ld,vbo,mp4}"@, after) {
        lemma_first_in(pattern, before, "{pds,ld,vbo,mp4}"@, after);
    }
    if is_first_in(pattern, before, "{pds,ld,vbo}"@, after) {
        lemma_first_in(pattern, before, "{pds,ld,vbo}"@, after);
    }
}

/// A pattern is matched against files exactly if it has an asterisk, a question mark or a
/// bracket, and braces count as magic as well.
pub proof fn law_wild_patterns(pattern: Seq<char>)
    ensures
        has_wild(pattern) <==> pattern.contains('*') || pattern.contains('?') || pattern.contains(
            '[',
        ),
        has_magic_in(pattern) <==> pattern.contains('*') || pattern.contains('?')
            || pattern.contains('[') || pattern.contains('{'),
{
    if has_magic_in(pattern) {
        let i = choose|i: int|
            0 <= i < pattern.len() && (crate::paths::is_wild(#[trigger] pattern[i]) || pattern[i]
                == '{');
        assert(pattern.contains(pattern[i]));
    }
    if has_wild(pattern) {
        let i = choose|i: int| 0 <= i < pattern.len() && crate::paths::is_wild(
            #[trigger] pattern[i],
        );
        assert(pattern.contains(pattern[i]));
    }
    if pattern.contains('{') {
        let i = choose|i: int| 0 <= i < pattern.len() && pattern[i] == '{';
        assert(pattern[i] == '{');
    }
    if pattern.contains('*') {
        let i = choose|i: int| 0 <= i < pattern.len() && pattern[i] == '*';
        assert(crate::paths::is_wild(pattern[i]));
    }
    if pattern.contains('?') {
        let i = choose|i: int| 0 <= i < pattern.len() && pattern[i] == '?';
        assert(crate::paths::is_wild(pattern[i]));
    }
    if pattern.contains('[') {
        let i = choose|i: int| 0 <= i < pattern.len() && pattern[i] == '[';
        assert(crate::paths::is_wild(pattern[i]));
    }
}

/// A file is in a span of dates from the first moment on and before the last; a span without a
/// start or an end is open there.
pub proof fn law_spans_of_dates(created: i64, from: i64, to: i64)
    ensures
        created_between(created, Some(from), Some(to)) <==> from <= created < to,
        created_between(created, Some(from), None) <==> from <= created,
        created_between(created, None, Some(to)) <==> created < to,
        created_between(created, None, None),
{
}

// ---------------------------------------------------------------------------------------
// Order
// ---------------------------------------------------------------------------------------
/// The first byte in which two names differ decides which comes first, and a name comes before
/// what continues it.
pub proof fn law_the_first_byte_decides(common: Seq<u8>, a: u8, b: u8, s: Seq<u8>, t: Seq<u8>)
    ensures
        a != b ==> (bytes_before(common + seq![a] + s, common + seq![b] + t) <==> a < b),
        bytes_before(common, common + s) <==> s.len() > 0,
        !bytes_before(common + s, common),
    decreases common.len(),
{
    let x = common + seq![a] + s;
    let y = common + seq![b] + t;
    if common.len() > 0 {
        let rest = common.skip(1);
        law_the_first_byte_decides(rest, a, b, s, t);
        assert(x.skip(1) =~= rest + seq![a] + s);
        assert(y.skip(1) =~= rest + seq![b] + t);
        assert(x[0] == common[0] && y[0] == common[0]);
        assert((common + s).skip(1) =~= rest + s);
        assert((common + s)[0] == common[0]);
    } else {
        assert(x[0] == a && y[0] == b);
        assert(common + s =~= s);
    }
}

/// The first step in which two paths differ decides which comes first: by its kind, and among
/// those of a kind by its name; a path comes before what lies in it.
pub proof fn law_the_first_step_decides(
    common: Seq<(u8, Seq<u8>)>,
    a: (u8, Seq<u8>),
    b: (u8, Seq<u8>),
    s: Seq<(u8, Seq<u8>)>,
    t: Seq<(u8, Seq<u8>)>,
)
    ensures
        a != b ==> (path_before(common + seq![a] + s, common + seq![b] + t) <==> (a.0 < b.0 || (a.0
            == b.0 && bytes_before(a.1, b.1)))),
        path_before(common, common + s) <==> s.len() > 0,
        !path_before(common + s, common),
    decreases common.len(),
{
    reveal_with_fuel(path_before, 2);
    let x = common + seq![a] + s;
    let y = common + seq![b] + t;
    if common.len() > 0 {
        let rest = common.skip(1);
        law_the_first_step_decides(rest, a, b, s, t);
        assert(x.skip(1) =~= rest + seq![a] + s);
        assert(y.skip(1) =~= rest + seq![b] + t);
        assert(x[0] == common[0] && y[0] == common[0]);
        assert((common + s).skip(1) =~= rest + s);
        assert((common + s)[0] == common[0]);
    } else {
        assert(x[0] == a && y[0] == b);
        assert(common + s =~= s);
    }
}

/// Selected paths are different and come in their order.
pub proof fn law_selected_paths_are_in_order(
    places: Seq<usize>,
    found: Seq<FoundPath>,
    only_telemetry: bool,
    i: int,
    j: int,
)
    requires
        are_selected(places, found, only_telemetry, found.len() as int),
        0 <= i < j < places.len(),
    ensures
        steps_of(found[places[i] as int]) != steps_of(found[places[j] as int]),
        path_before(steps_of(found[places[i] as int]), steps_of(found[places[j] as int])),
{
    assert(precedes(found, places[i], places[j]));
    let steps = steps_of(found[places[i] as int]);
    let none = Seq::<(u8, Seq<u8>)>::empty();
    law_the_first_step_decides(steps, (0, Seq::empty()), (0, Seq::empty()), none, none);
    assert(steps + none =~= steps);
}

/// Whether a path is selected: any is without a pattern, and those of a known format with one.
pub open spec fn is_wanted(path: FoundPath, only_telemetry: bool) -> bool {
    !only_telemetry || (path.extension is Some && format_of(path.extension->0@) is Some)
}

/// Every path that was found and is wanted is selected, and no other; of a path that was found
/// more than once the first is taken.
pub proof fn law_selected_paths_are_complete(
    places: Seq<usize>,
    found: Seq<FoundPath>,
    only_telemetry: bool,
)
    requires
        are_selected(places, found, only_telemetry, found.len() as int),
    ensures
        forall|i: int|
            0 <= i < places.len() ==> (#[trigger] places[i]) < found.len() && is_wanted(
                found[places[i] as int],
                only_telemetry,
            ),
        forall|k: int|
            0 <= k < found.len() && is_wanted(#[trigger] found[k], only_telemetry) ==> exists|
                p: int,
            |
                0 <= p < places.len() && (#[trigger] places[p]) <= k && steps_of(
                    found[places[p] as int],
                ) == steps_of(found[k]),
{
    assert forall|i: int| 0 <= i < places.len() implies (#[trigger] places[i]) < found.len()
        && is_wanted(found[places[i] as int], only_telemetry) by {
        assert(is_kept(found[places[i] as int], only_telemetry));
    }
    assert forall|k: int|
        0 <= k < found.len() && is_wanted(#[trigger] found[k], only_telemetry) implies exists|
        p: int,
    |
        0 <= p < places.len() && (#[trigger] places[p]) <= k && steps_of(found[places[p] as int])
            == steps_of(found[k]) by {
        assert(is_kept(found[k], only_telemetry));
        assert(is_listed(places, found, k));
    }
}

/// A pattern matches exactly if one of the paths that were found is wanted.
pub proof fn law_what_matches(found: Seq<FoundPath>, only_telemetry: bool)
    ensures
        keeps_any(found, only_telemetry) <==> exists|k: int|
            0 <= k < found.len() && is_wanted(#[trigger] found[k], only_telemetry),
{
    if keeps_any(found, only_telemetry) {
        let k = choose|k: int| 0 <= k < found.len() && is_kept(#[trigger] found[k], only_telemetry);
        assert(is_wanted(found[k], only_telemetry));
    }
    if exists|k: int| 0 <= k < found.len() && is_wanted(#[trigger] found[k], only_telemetry) {
        let k = choose|k: int|
            0 <= k < found.len() && is_wanted(#[trigger] found[k], only_telemetry);
        assert(is_kept(found[k], only_telemetry));
    }
}

} // verus!

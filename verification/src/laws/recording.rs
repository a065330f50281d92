//! What holds of the parts of a PDS file: its directory, its definitions and its chunk table.
use crate::laws::lists::{lemma_present_front, present};
use crate::laws::pds::{bytes_of, has_all_of, has_stored};
use crate::pds::bytes::{text_at, u32_at, u64_at};
use crate::pds::chunks::{
    chunk_table, compact_chunk, compact_from, first_record_head, head_agrees, is_record_head,
    native_chunk, native_chunks, native_from, record_width, run_start, table_start, RawChunk,
};
use crate::pds::definitions::{
    first_marked_record, first_marker, inferred_unit, marked_definition, marked_definitions,
    marked_from, marked_record_size, unmarked_definition, unmarked_from, Definition,
};
use crate::pds::directory::{
    best_start, directory, entries_at, law_directory_is_the_first_best, layout_from, layout_of,
    score, start_position, start_score, DirEntry, Layout,
};
use crate::pds::error::PdsError;
use crate::pds::file::{
    are_channels_of, chunks_for, failure, file_definitions, file_layout, is_export_file, Channel,
};
use crate::sample::{type_of_code, SampleType};
use crate::text::{contains, lower, occurs_at};
use vstd::prelude::*;

verus! {

// ---------------------------------------------------------------------------------------
// The directory
// ---------------------------------------------------------------------------------------
/// A directory has up to twenty records of 32 bytes, as far as the file goes, one after the
/// other; a record tells where a part of the file lies, how many things it has, of what class
/// it is and how many things the next part has.
pub proof fn law_directory_records(data: Seq<u8>, start: int, i: int)
    requires
        0 <= start,
        0 <= i,
    ensures
        ({
            let entries = entries_at(data, start);
            let at = start + 32 * i;
            &&& i < entries.len() <==> i < 20 && at + 32 <= data.len()
            &&& i < entries.len() ==> {
                &&& u64_at(data, at) == Some(entries[i].offset)
                &&& u32_at(data, at + 8) == Some(entries[i].count)
                &&& u32_at(data, at + 20) == Some(entries[i].class_b)
                &&& u32_at(data, at + 24) == Some(entries[i].next_count)
            }
        }),
{
}

/// Whether a record is of a known class.
pub open spec fn is_known(entry: DirEntry) -> bool {
    entry.class_b <= 3
}

/// Whether a record is of a known class and points into the file.
pub open spec fn points_into(entry: DirEntry, size: int) -> bool {
    entry.class_b <= 3 && 0 < entry.offset < size
}

/// A directory scores one for each record of a known class and one more for each of them that
/// points into the file.
pub proof fn law_directory_scores(entries: Seq<DirEntry>, size: int)
    ensures
        score(entries, size) == entries.filter(|entry: DirEntry| is_known(entry)).len()
            + entries.filter(|entry: DirEntry| points_into(entry, size)).len(),
    decreases entries.len(),
{
    reveal(Seq::filter);
    if entries.len() > 0 {
        law_directory_scores(entries.drop_last(), size);
    }
}

/// The directory of a file is read at 0x80, 0x78, and so on down to 0x40, at the first of these
/// positions at which it scores the most.
pub proof fn law_directory_position(data: Seq<u8>, position: int)
    requires
        0x40 <= position <= 0x80,
        position % 8 == 0,
    ensures
        exists|found: int|
            0x40 <= found <= 0x80 && found % 8 == 0 && directory(data) == #[trigger] entries_at(
                data,
                found,
            ) && score(entries_at(data, position), data.len() as int) <= score(
                entries_at(data, found),
                data.len() as int,
            ) && (position > found ==> score(entries_at(data, position), data.len() as int) < score(
                entries_at(data, found),
                data.len() as int,
            )),
{
    law_directory_is_the_first_best(data);
    let k = (0x80 - position) / 8;
    assert(start_position(k) == position);
    assert(start_score(data, k) == score(entries_at(data, position), data.len() as int));
    let best = best_start(data, 9);
    let found = start_position(best);
    assert(start_score(data, best) == score(entries_at(data, found), data.len() as int));
    assert(directory(data) == entries_at(data, found));
}

/// Whether a number of records of one width, between 48 and 512 bytes, fill a space.
pub open spec fn fills(span: int, count: int) -> bool {
    exists|width: int| 48 <= width <= 512 && #[trigger] (width * count) == span && count > 0
}

proof fn lemma_fills(span: int, count: int)
    requires
        span > 0,
        count >= 0,
    ensures
        fills(span, count) <==> crate::pds::directory::plausible(span, count),
{
    if crate::pds::directory::plausible(span, count) {
        let width = span / count;
        assert(width * count == span) by (nonlinear_arith)
            requires
                width == span / count,
                span % count == 0,
                count > 0,
        ;
    }
    if fills(span, count) {
        let width = choose|width: int|
            48 <= width <= 512 && #[trigger] (width * count) == span && count > 0;
        assert(span % count == 0 && span / count == width) by (nonlinear_arith)
            requires
                width * count == span,
                count > 0,
        ;
    }
}

/// Whether three records that follow one another tell where definitions, chunk table and the
/// part behind it lie, and the chunk table has a given number of records.
pub open spec fn tells_layout(
    entries: Seq<DirEntry>,
    i: int,
    size: int,
    layout: Layout,
) -> bool {
    let defs = entries[i];
    let chunks = entries[i + 1];
    let next = entries[i + 2];
    let span = next.offset - chunks.offset;
    &&& 0 <= i
    &&& i + 2 < entries.len()
    &&& defs.class_b == 1
    &&& defs.count > 0
    &&& defs.offset < chunks.offset < next.offset <= size
    &&& layout.defs_offset == defs.offset
    &&& layout.defs_count == defs.count
    &&& layout.chunk_offset == chunks.offset
    &&& layout.next_offset == next.offset
    &&& fills(span, layout.chunk_count as int)
    &&& fills(span, defs.next_count as int) ==> layout.chunk_count == defs.next_count
    &&& !fills(span, defs.next_count as int) ==> layout.chunk_count == chunks.count
}

/// Whether three records that follow one another tell a layout.
pub open spec fn tells_some_layout(entries: Seq<DirEntry>, i: int, size: int) -> bool {
    exists|layout: Layout| #[trigger] tells_layout(entries, i, size, layout)
}

/// The layout of a file is what the first three records tell that tell one, and there is none
/// where no three records do.
pub proof fn law_layout_is_the_first_told(data: Seq<u8>)
    requires
        data.len() <= usize::MAX,
    ensures
        match file_layout(data) {
            Some(layout) => exists|i: int| #[trigger]
                tells_layout(directory(data), i, data.len() as int, layout) && forall|j: int|
                    0 <= j < i ==> !#[trigger] tells_some_layout(
                        directory(data),
                        j,
                        data.len() as int,
                    ),
            None => forall|j: int|
                !#[trigger] tells_some_layout(directory(data), j, data.len() as int),
        },
{
    lemma_layout(directory(data), 0, data.len() as int);
    if let Some(layout) = file_layout(data) {
        let i = choose|i: int| #[trigger]
            tells_layout(directory(data), i, data.len() as int, layout) && 0 <= i && forall|j: int|
                0 <= j < i ==> !#[trigger] tells_some_layout(
                    directory(data),
                    j,
                    data.len() as int,
                );
        assert(tells_layout(directory(data), i, data.len() as int, layout));
    }
}

proof fn lemma_layout(entries: Seq<DirEntry>, i: int, size: int)
    requires
        0 <= i,
        0 <= size <= usize::MAX,
    ensures
        match layout_from(entries, i, size) {
            Some(layout) => exists|k: int| #[trigger]
                tells_layout(entries, k, size, layout) && i <= k && forall|j: int|
                    i <= j < k ==> !#[trigger] tells_some_layout(entries, j, size),
            None => forall|j: int| i <= j ==> !#[trigger] tells_some_layout(entries, j, size),
        },
    decreases entries.len() - i,
{
    if i + 2 < entries.len() {
        let defs = entries[i];
        let chunks = entries[i + 1];
        let next = entries[i + 2];
        let span = next.offset - chunks.offset;
        if span > 0 {
            lemma_fills(span, defs.next_count as int);
            lemma_fills(span, chunks.count as int);
        }
        match layout_of(defs, chunks, next, size) {
            Some(layout) => {
                assert(tells_layout(entries, i, size, layout));
            },
            None => {
                assert(!tells_some_layout(entries, i, size)) by {
                    if tells_some_layout(entries, i, size) {
                        let layout = choose|layout: Layout| #[trigger]
                            tells_layout(entries, i, size, layout);
                        assert(tells_layout(entries, i, size, layout));
                    }
                }
                lemma_layout(entries, i + 1, size);
                if let Some(layout) = layout_from(entries, i + 1, size) {
                    let k = choose|k: int| #[trigger]
                        tells_layout(entries, k, size, layout) && i + 1 <= k && forall|j: int|
                            i + 1 <= j < k ==> !#[trigger] tells_some_layout(entries, j, size);
                    assert(tells_layout(entries, k, size, layout));
                }
            },
        }
    } else {
        assert forall|j: int| i <= j implies !#[trigger] tells_some_layout(entries, j, size) by {
            if tells_some_layout(entries, j, size) {
                let layout = choose|layout: Layout| #[trigger]
                    tells_layout(entries, j, size, layout);
                assert(tells_layout(entries, j, size, layout));
            }
        }
    }
}

// ---------------------------------------------------------------------------------------
// Definitions
// ---------------------------------------------------------------------------------------
/// Whether a marker stands at a position that is a whole number of steps of two from another.
pub open spec fn has_marker(data: Seq<u8>, from: int, at: int) -> bool {
    from <= at && (at - from) % 2 == 0 && u64_at(data, at) == Some(0x7c72u64)
}

/// Marked definitions begin at the first marker.
pub proof fn law_the_first_marker(data: Seq<u8>, from: int, to: int)
    ensures
        match first_marker(data, from, to) {
            Some(at) => at < to && has_marker(data, from, at) && forall|k: int|
                k < at ==> !#[trigger] has_marker(data, from, k),
            None => forall|k: int| k < to ==> !#[trigger] has_marker(data, from, k),
        },
    decreases to - from + 1,
{
    if from < to && u64_at(data, from) != Some(0x7c72u64) {
        law_the_first_marker(data, from + 2, to);
        let to_here = match first_marker(data, from, to) {
            Some(at) => at,
            None => to,
        };
        assert forall|k: int| k < to_here implies !#[trigger] has_marker(data, from, k) by {
            if has_marker(data, from, k) {
                assert(k != from);
                assert(has_marker(data, from + 2, k));
            }
        }
    }
}

/// The markers of definitions are looked for in the definitions' part alone, in its first eight
/// kibibytes; the next within a kibibyte tells how long a record is, 304 bytes where there is
/// none.
pub proof fn law_marked_records(data: Seq<u8>, layout: Layout)
    ensures
        match first_marked_record(data, layout) {
            Some(first) => {
                &&& has_marker(data, layout.defs_offset as int, first)
                &&& first + 8 <= layout.chunk_offset
                &&& first + 8 <= layout.defs_offset + 8192
                &&& first + 8 <= data.len()
                &&& forall|k: int|
                    k < first ==> !#[trigger] has_marker(data, layout.defs_offset as int, k)
                &&& ({
                    let size = marked_record_size(data, layout, first);
                    ||| {
                        &&& has_marker(data, first + 16, first + size)
                        &&& first + size + 8 <= layout.chunk_offset
                        &&& size + 8 <= 1024
                        &&& forall|k: int|
                            k < first + size ==> !#[trigger] has_marker(data, first + 16, k)
                    }
                    ||| {
                        &&& size == 304
                        &&& forall|k: int|
                            k + 8 <= layout.chunk_offset && k + 8 <= first + 1024 && k + 8
                                <= data.len() ==> !#[trigger] has_marker(data, first + 16, k)
                    }
                })
            },
            None => forall|k: int|
                k + 8 <= layout.chunk_offset && k + 8 <= layout.defs_offset + 8192 && k + 8
                    <= data.len() ==> !#[trigger] has_marker(data, layout.defs_offset as int, k),
        },
{
    let to = crate::pds::definitions::least(
        layout.chunk_offset as int,
        layout.defs_offset + 8192,
        data.len() as int,
    ) - 7;
    law_the_first_marker(data, layout.defs_offset as int, to);
    if let Some(first) = first_marked_record(data, layout) {
        let end = crate::pds::definitions::least(
            layout.chunk_offset as int,
            first + 1024,
            data.len() as int,
        ) - 7;
        law_the_first_marker(data, first + 16, end);
    }
}

/// A marked record defines a channel exactly if it has the marker, a number that is not zero
/// and a name; number, name, unit and type stand at their places in it.
pub proof fn law_a_marked_record(data: Seq<u8>, at: int)
    requires
        0 <= at,
    ensures
        match marked_definition(data, at) {
            Some(definition) => {
                let stored = text_at(data, at + 152, 32);
                &&& u64_at(data, at) == Some(0x7c72u64)
                &&& u32_at(data, at + 8) == Some(definition.id)
                &&& definition.id > 0
                &&& definition.name == text_at(data, at + 16, 112)
                &&& definition.name.len() > 0
                &&& stored.len() > 0 ==> definition.unit == stored
                &&& stored.len() == 0 ==> definition.unit == inferred_unit(definition.name)
                &&& definition.sample_type == (match u32_at(data, at + 216) {
                    Some(code) => type_of_code(code as int),
                    None => SampleType::F32,
                })
            },
            None => u64_at(data, at) != Some(0x7c72u64) || u32_at(data, at + 8) is None || u32_at(
                data,
                at + 8,
            ) == Some(0u32) || text_at(data, at + 16, 112).len() == 0,
        },
{
}

/// An unmarked record defines a channel exactly if it has a name; number, name, unit and type
/// stand at their places in it, as far as it is long enough.
pub proof fn law_an_unmarked_record(data: Seq<u8>, at: int, size: int, is_export: bool)
    requires
        0 <= at,
        at + 16 <= data.len(),
    ensures
        match unmarked_definition(data, at, size, is_export) {
            Some(definition) => {
                let stored = text_at(data, at + 152, 32);
                &&& u32_at(data, at) == Some(definition.id)
                &&& definition.name == text_at(data, at + 8, 112)
                &&& definition.name.len() > 0
                &&& size >= 184 && stored.len() > 0 ==> definition.unit == stored
                &&& size < 184 || stored.len() == 0 ==> definition.unit == inferred_unit(
                    definition.name,
                )
                &&& !is_export && size >= 212 ==> (match u32_at(data, at + 208) {
                    Some(code) => if 1 <= code <= 7 {
                        definition.sample_type == type_of_code(code as int)
                    } else {
                        definition.sample_type is F64
                    },
                    None => definition.sample_type is F64,
                })
                &&& is_export || size < 212 ==> definition.sample_type is F64
            },
            None => text_at(data, at + 8, 112).len() == 0,
        },
{
}

/// The codes of the representations of samples.
pub proof fn law_type_codes(code: int)
    ensures
        match type_of_code(code) {
            SampleType::U8 => code == 1,
            SampleType::I16 => code == 2,
            SampleType::U16 => code == 3,
            SampleType::I32 => code == 4,
            SampleType::U32 => code == 5,
            SampleType::F64 => code == 7,
            SampleType::F32 => code == 6 || code < 1 || code > 7,
        },
{
}

/// Whether the `k`-th of records of one size fits in front of a limit, as far as it has to.
pub open spec fn is_room(at: int, size: int, k: int, needed: int, limit: int) -> bool {
    at + k * size + needed <= limit
}

proof fn lemma_next(at: int, size: int, k: int)
    ensures
        at + size + k * size == at + (k + 1) * size,
{
    assert((k + 1) * size == k * size + size) by (nonlinear_arith);
}

/// Marked records follow one another at the distance of the first two, as long as a record fits
/// in front of the chunk table, and each that defines a channel gives it, in their order.
pub proof fn law_marked_definitions(data: Seq<u8>, at: int, size: int, limit: int, n: nat)
    requires
        size > 0,
        forall|k: int|
            0 <= k ==> (k < n <==> #[trigger] is_room(at, size, k, 220, limit)),
    ensures
        marked_from(data, at, size, limit) == present(
            Seq::new(n, |k: int| marked_definition(data, at + k * size)),
        ),
    decreases n,
{
    let records = Seq::new(n, |k: int| marked_definition(data, at + k * size));
    assert(is_room(at, size, 0, 220, limit) <==> at + 220 <= limit);
    if n > 0 {
        let next = at + size;
        assert forall|k: int| 0 <= k implies (k < n - 1 <==> #[trigger] is_room(
            next,
            size,
            k,
            220,
            limit,
        )) by {
            lemma_next(at, size, k);
            assert(is_room(at, size, k + 1, 220, limit) <==> k + 1 < n);
        }
        law_marked_definitions(data, next, size, limit, (n - 1) as nat);
        let rest = Seq::new((n - 1) as nat, |k: int| marked_definition(data, next + k * size));
        let both = seq![marked_definition(data, at)] + rest;
        assert forall|k: int| 0 <= k < n implies records[k] == #[trigger] both[k] by {
            if k > 0 {
                lemma_next(at, size, k - 1);
            } else {
                assert(0 * size == 0);
            }
        }
        assert(records =~= both);
        lemma_present_front(marked_definition(data, at), rest);
    } else {
        assert(records =~= Seq::empty());
    }
}

/// A file's definitions are those of its marked records where there are any, with records of at
/// least 220 bytes.
pub proof fn law_a_file_with_markers(data: Seq<u8>, layout: Layout, n: nat)
    requires
        layout.chunk_offset <= data.len(),
        first_marked_record(data, layout) is Some,
        ({
            let first = first_marked_record(data, layout)->0;
            let size = marked_record_size(data, layout, first);
            &&& size >= 220
            &&& forall|k: int|
                0 <= k ==> (k < n <==> #[trigger] is_room(
                    first,
                    size,
                    k,
                    220,
                    layout.chunk_offset as int,
                ))
        }),
    ensures
        ({
            let first = first_marked_record(data, layout)->0;
            let size = marked_record_size(data, layout, first);
            let marked = present(Seq::new(n, |k: int| marked_definition(data, first + k * size)));
            &&& marked_definitions(data, layout) == marked
            &&& marked.len() > 0 ==> file_definitions(data, layout) == marked
            &&& marked.len() > 0 ==> !is_export_file(data, layout)
        }),
{
    let first = first_marked_record(data, layout)->0;
    let size = marked_record_size(data, layout, first);
    law_marked_definitions(data, first, size, layout.chunk_offset as int, n);
}

/// A file has no marked definitions where there is no marker, or where the markers are too
/// close to each other for a record.
pub proof fn law_no_marked_definitions(data: Seq<u8>, layout: Layout)
    requires
        first_marked_record(data, layout) is None || marked_record_size(
            data,
            layout,
            first_marked_record(data, layout)->0,
        ) < 220,
    ensures
        marked_definitions(data, layout).len() == 0,
{
}

/// Without markers the definitions fill their part evenly, one record after the other as long
/// as its head lies in the file; records that are shorter than 100 or longer than 1024 bytes
/// are none. Such a file with at most two hundred definitions is an export.
pub proof fn law_unmarked_definitions(
    data: Seq<u8>,
    at: int,
    size: int,
    left: nat,
    is_export: bool,
    n: nat,
)
    requires
        size > 0,
        n <= left,
        forall|k: int|
            0 <= k < left ==> (k < n <==> #[trigger] is_room(at, size, k, 16, data.len() as int)),
    ensures
        unmarked_from(data, at, size, left, is_export) == present(
            Seq::new(n, |k: int| unmarked_definition(data, at + k * size, size, is_export)),
        ),
    decreases n,
{
    let records = Seq::new(n, |k: int| unmarked_definition(data, at + k * size, size, is_export));
    if left > 0 {
        assert(is_room(at, size, 0, 16, data.len() as int) <==> at + 16 <= data.len());
    }
    if n > 0 {
        let next = at + size;
        assert forall|k: int| 0 <= k < left - 1 implies (k < n - 1 <==> #[trigger] is_room(
            next,
            size,
            k,
            16,
            data.len() as int,
        )) by {
            lemma_next(at, size, k);
            assert(is_room(at, size, k + 1, 16, data.len() as int) <==> k + 1 < n);
        }
        law_unmarked_definitions(data, next, size, (left - 1) as nat, is_export, (n - 1) as nat);
        let rest = Seq::new(
            (n - 1) as nat,
            |k: int| unmarked_definition(data, next + k * size, size, is_export),
        );
        let both = seq![unmarked_definition(data, at, size, is_export)] + rest;
        assert forall|k: int| 0 <= k < n implies records[k] == #[trigger] both[k] by {
            if k > 0 {
                lemma_next(at, size, k - 1);
            } else {
                assert(0 * size == 0);
            }
        }
        assert(records =~= both);
        lemma_present_front(unmarked_definition(data, at, size, is_export), rest);
    } else {
        assert(records =~= Seq::empty());
    }
}

/// Without markers a file's definitions are those of its unmarked records.
pub proof fn law_a_file_without_markers(data: Seq<u8>, layout: Layout, n: nat)
    requires
        marked_definitions(data, layout).len() == 0,
        layout.valid(data.len() as int),
        n <= layout.defs_count,
        ({
            let size = (layout.chunk_offset - layout.defs_offset) / layout.defs_count as int;
            forall|k: int|
                0 <= k < layout.defs_count ==> (k < n <==> #[trigger] is_room(
                    layout.defs_offset as int,
                    size,
                    k,
                    16,
                    data.len() as int,
                ))
        }),
    ensures
        ({
            let size = (layout.chunk_offset - layout.defs_offset) / layout.defs_count as int;
            let is_export = layout.defs_count <= 200;
            &&& is_export_file(data, layout) == is_export
            &&& 100 <= size <= 1024 ==> file_definitions(data, layout) == present(
                Seq::new(
                    n,
                    |k: int|
                        unmarked_definition(data, layout.defs_offset + k * size, size, is_export),
                ),
            )
            &&& !(100 <= size <= 1024) ==> file_definitions(data, layout).len() == 0
        }),
{
    let size = (layout.chunk_offset - layout.defs_offset) / layout.defs_count as int;
    if 100 <= size <= 1024 {
        law_unmarked_definitions(
            data,
            layout.defs_offset as int,
            size,
            layout.defs_count as nat,
            layout.defs_count <= 200,
            n,
        );
    }
}

proof fn lemma_middle(before: Seq<char>, word: Seq<char>, after: Seq<char>, pattern: Seq<char>)
    requires
        lower(word) == pattern,
    ensures
        contains(lower(before + word + after), pattern),
{
    crate::laws::text::law_lowering_goes_by_characters(before + word, after);
    crate::laws::text::law_lowering_goes_by_characters(before, word);
    let n = lower(before + word + after);
    assert(n.subrange(before.len() as int, (before.len() + word.len()) as int) =~= pattern);
    assert(occurs_at(n, pattern, before.len() as int));
}

/// Whether a word stands in a name, in capital or small letters.
pub open spec fn mentions(name: Seq<char>, word: Seq<char>) -> bool {
    exists|at: int|
        0 <= at && at + word.len() <= name.len() && lower(
            #[trigger] name.subrange(at, at + word.len()),
        ) == word
}

proof fn lemma_mentions(name: Seq<char>, word: Seq<char>)
    ensures
        mentions(name, word) <==> contains(lower(name), word),
{
    if mentions(name, word) {
        let at = choose|at: int|
            0 <= at && at + word.len() <= name.len() && lower(
                #[trigger] name.subrange(at, at + word.len()),
            ) == word;
        let before = name.subrange(0, at);
        let middle = name.subrange(at, at + word.len());
        let after = name.subrange(at + word.len(), name.len() as int);
        assert(name =~= before + middle + after);
        lemma_middle(before, middle, after, word);
    }
    if contains(lower(name), word) {
        let at = choose|at: int| #[trigger] occurs_at(lower(name), word, at);
        let middle = name.subrange(at, at + word.len());
        assert(lower(middle) =~= lower(name).subrange(at, at + word.len()));
    }
}

/// A channel without a unit has the one that its name suggests: a speed is in metres per
/// second, a steering angle in degrees, an acceleration in g, a damper travel in millimetres, a
/// brake or tyre pressure in pascals; the first of these that fits counts.
pub proof fn law_names_suggest_units(name: Seq<char>)
    ensures
        ({
            let unit = inferred_unit(name);
            let speed = mentions(name, "speed"@) || mentions(name, "vel"@);
            let steer = mentions(name, "steer"@);
            let accel = mentions(name, "accel"@);
            let damper = mentions(name, "damper"@);
            let pressed = mentions(name, "press"@) && (mentions(name, "brake"@) || mentions(
                name,
                "tire"@,
            ) || mentions(name, "tyre"@));
            let pressure = pressed || mentions(name, "p_f_brake"@) || mentions(name, "p_r_brake"@)
                || mentions(name, "p_tyre"@);
            &&& speed ==> unit == "m/s"@
            &&& !speed && steer ==> unit == "deg"@
            &&& !speed && !steer && accel ==> unit == "g"@
            &&& !speed && !steer && !accel && damper ==> unit == "mm"@
            &&& !speed && !steer && !accel && !damper && pressure ==> unit == "pa"@
            &&& !speed && !steer && !accel && !damper && !pressure ==> unit.len() == 0
        }),
{
    lemma_mentions(name, "speed"@);
    lemma_mentions(name, "vel"@);
    lemma_mentions(name, "steer"@);
    lemma_mentions(name, "accel"@);
    lemma_mentions(name, "damper"@);
    lemma_mentions(name, "press"@);
    lemma_mentions(name, "brake"@);
    lemma_mentions(name, "tire"@);
    lemma_mentions(name, "tyre"@);
    lemma_mentions(name, "p_f_brake"@);
    lemma_mentions(name, "p_r_brake"@);
    lemma_mentions(name, "p_tyre"@);
}

// ---------------------------------------------------------------------------------------
// The chunk table
// ---------------------------------------------------------------------------------------
/// A record of the chunk table is a chunk exactly if its two channel numbers agree, period and
/// count are not zero, and its data begins in the file; outside an export the number is not
/// zero either. What it says stands at its places in it.
pub proof fn law_a_chunk_record(data: Seq<u8>, at: int, is_export: bool)
    requires
        0 <= at,
        at + 60 <= data.len(),
    ensures
        match native_chunk(data, at, is_export) {
            Some(chunk) => {
                &&& u32_at(data, at + 4) == Some(chunk.channel_id)
                &&& u32_at(data, at + 8) == Some(chunk.channel_id)
                &&& u32_at(data, at + 24) == Some(chunk.sample_period_ticks)
                &&& u32_at(data, at + 28)->0 == chunk.sample_count
                &&& u32_at(data, at + 56)->0 == chunk.data_ptr
                &&& chunk.sample_period_ticks > 0
                &&& chunk.sample_count > 0
                &&& chunk.data_ptr < data.len()
                &&& chunk.channel_id > 0 || is_export
            },
            None => {
                ||| u32_at(data, at + 4) != u32_at(data, at + 8)
                ||| u32_at(data, at + 4) == Some(0u32) && !is_export
                ||| u32_at(data, at + 24) == Some(0u32)
                ||| u32_at(data, at + 28) == Some(0u32)
                ||| u32_at(data, at + 56)->0 >= data.len()
            },
        },
{
}

/// The records of a chunk table follow one another, and each that is a chunk gives it, in their
/// order.
pub proof fn law_chunk_records(data: Seq<u8>, at: int, width: int, left: nat, is_export: bool)
    ensures
        native_from(data, at, width, left, is_export) == present(
            Seq::new(left, |k: int| native_chunk(data, at + k * width, is_export)),
        ),
    decreases left,
{
    let records = Seq::new(left, |k: int| native_chunk(data, at + k * width, is_export));
    if left > 0 {
        let next = at + width;
        law_chunk_records(data, next, width, (left - 1) as nat, is_export);
        let rest = Seq::new(
            (left - 1) as nat,
            |k: int| native_chunk(data, next + k * width, is_export),
        );
        let both = seq![native_chunk(data, at, is_export)] + rest;
        assert forall|k: int| 0 <= k < left implies records[k] == #[trigger] both[k] by {
            if k > 0 {
                lemma_next(at, width, k - 1);
            } else {
                assert(0 * width == 0);
            }
        }
        assert(records =~= both);
        lemma_present_front(native_chunk(data, at, is_export), rest);
    } else {
        assert(records =~= Seq::empty());
    }
}

/// Whether a record that looks like a chunk's stands at a position that is a whole number of
/// steps of four from another: its two channel numbers agree and are not zero, and so is not
/// its count.
pub open spec fn has_head(data: Seq<u8>, from: int, at: int) -> bool {
    &&& from <= at
    &&& (at - from) % 4 == 0
    &&& at + 60 <= data.len()
    &&& u32_at(data, at + 4) == u32_at(data, at + 8)
    &&& u32_at(data, at + 4)->0 > 0
    &&& u32_at(data, at + 28)->0 > 0
}

/// The table begins with the first record that looks like a chunk's.
pub proof fn law_the_first_head(data: Seq<u8>, from: int, to: int)
    requires
        0 <= from,
    ensures
        match first_record_head(data, from, to) {
            Some(at) => at < to && has_head(data, from, at) && forall|k: int|
                k < at ==> !#[trigger] has_head(data, from, k),
            None => forall|k: int| k < to ==> !#[trigger] has_head(data, from, k),
        },
    decreases to - from + 3,
{
    assert(has_head(data, from, from) <==> is_record_head(data, from));
    if from < to && !is_record_head(data, from) {
        law_the_first_head(data, from + 4, to);
        let to_here = match first_record_head(data, from, to) {
            Some(at) => at,
            None => to,
        };
        assert forall|k: int| k < to_here implies !#[trigger] has_head(data, from, k) by {
            if has_head(data, from, k) {
                assert(k != from);
                assert(has_head(data, from + 4, k));
            }
        }
    }
}

/// In an export the table reaches back over all records before that one that agree with
/// themselves, as far as the chunk table goes.
pub proof fn law_the_start_of_a_run(data: Seq<u8>, at: int, floor: int, width: int)
    requires
        width > 0,
        at >= floor,
    ensures
        ({
            let start = run_start(data, at, floor, width);
            &&& floor <= start <= at
            &&& (at - start) % width == 0
            &&& forall|k: int|
                #![trigger head_agrees(data, k)]
                start <= k < at && (at - k) % width == 0 ==> head_agrees(data, k)
            &&& start < floor + width || !head_agrees(data, start - width)
        }),
    decreases at - floor,
{
    let start = run_start(data, at, floor, width);
    if at >= floor + width && head_agrees(data, at - width) {
        law_the_start_of_a_run(data, at - width, floor, width);
        assert((at - width - start) % width == 0 ==> (at - start) % width == 0) by (nonlinear_arith)
            requires
                width > 0,
        ;
        assert forall|k: int|
            #![trigger head_agrees(data, k)]
            start <= k < at && (at - k) % width == 0 implies head_agrees(data, k) by {
            if k > at - width {
                let gap = at - k;
                assert(gap % width == gap) by (nonlinear_arith)
                    requires
                        0 < gap < width,
                ;
            } else if k < at - width {
                assert((at - k) % width == 0 ==> (at - width - k) % width == 0)
                    by (nonlinear_arith)
                    requires
                        width > 0,
                ;
            }
        }
    } else {
        assert(0int % width == 0) by (nonlinear_arith)
            requires
                width > 0,
        ;
        assert forall|k: int|
            #![trigger head_agrees(data, k)]
            start <= k < at && (at - k) % width == 0 implies head_agrees(data, k) by {}
    }
}

/// What makes a record agree with itself.
pub proof fn law_a_record_that_agrees_with_itself(data: Seq<u8>, at: int)
    requires
        0 <= at,
        at + 32 <= data.len(),
    ensures
        head_agrees(data, at) <==> u32_at(data, at + 4) == u32_at(data, at + 8) && u32_at(
            data,
            at + 28,
        )->0 > 0,
{
}

/// A chunk table has the chunks of its records from its start on, as many as it is said to have
/// and as there is room for in front of the next part of the file. Where it has no start, or none
/// of these records is a chunk, its records are those of a table without channel numbers.
pub proof fn law_the_chunk_table(data: Seq<u8>, layout: Layout, is_export: bool)
    requires
        layout.valid(data.len() as int),
    ensures
        ({
            let width = (layout.next_offset - layout.chunk_offset) / layout.chunk_count as int;
            let table = chunk_table(data, layout, is_export);
            &&& width < 60 ==> table.len() == 0
            &&& width >= 60 && table_start(data, layout, is_export) is Some ==> {
                let start = table_start(data, layout, is_export)->0;
                let room = (layout.next_offset - start) / width;
                let count = if room < layout.chunk_count {
                    room as nat
                } else {
                    layout.chunk_count as nat
                };
                let native = present(
                    Seq::new(count, |k: int| native_chunk(data, start + k * width, is_export)),
                );
                &&& native.len() > 0 ==> table == native
                &&& native.len() == 0 ==> table == compact_from(data, 0, layout)
            }
            &&& width >= 60 && table_start(data, layout, is_export) is None ==> table
                == compact_from(data, 0, layout)
        }),
{
    let width = record_width(layout);
    if width >= 60 {
        if let Some(start) = table_start(data, layout, is_export) {
            let room = (layout.next_offset - start) / width;
            let count = (if room < layout.chunk_count {
                room
            } else {
                layout.chunk_count as int
            }) as nat;
            law_chunk_records(data, start, width, count, is_export);
        }
    }
}

/// The chunk table starts with the first head in its first four kibibytes, or with the run in
/// front of it in an export.
pub proof fn law_the_start_of_the_chunk_table(data: Seq<u8>, layout: Layout, is_export: bool)
    requires
        layout.valid(data.len() as int),
    ensures
        ({
            let from = layout.chunk_offset as int;
            let to = if layout.next_offset < from + 4096 {
                layout.next_offset as int
            } else {
                from + 4096
            };
            match table_start(data, layout, is_export) {
                Some(start) => exists|at: int| #[trigger]
                    has_head(data, from, at) && at < to && (forall|k: int|
                        k < at ==> !#[trigger] has_head(data, from, k)) && start == (if is_export {
                        run_start(data, at, from, record_width(layout))
                    } else {
                        at
                    }),
                None => forall|k: int| k < to ==> !#[trigger] has_head(data, from, k),
            }
        }),
{
    let from = layout.chunk_offset as int;
    let to = if layout.next_offset < from + 4096 {
        layout.next_offset as int
    } else {
        from + 4096
    };
    law_the_first_head(data, from, to);
}

/// A record of a table without channel numbers is a chunk exactly if period, count and position
/// are not zero and its data begins in the file; the channels take turns.
pub proof fn law_a_compact_record(data: Seq<u8>, at: int, index: int, layout: Layout)
    requires
        0 <= at,
        at + 60 <= data.len(),
        layout.valid(data.len() as int),
        0 <= index,
        layout.defs_count <= u32::MAX,
    ensures
        match compact_chunk(data, at, index, layout) {
            Some(chunk) => {
                &&& chunk.channel_id < layout.defs_count
                &&& (index - chunk.channel_id) % layout.defs_count as int == 0
                &&& u32_at(data, at + 24) == Some(chunk.sample_period_ticks)
                &&& u32_at(data, at + 28)->0 == chunk.sample_count
                &&& u32_at(data, at + 56)->0 == chunk.data_ptr
                &&& chunk.sample_period_ticks > 0
                &&& chunk.sample_count > 0
                &&& 0 < chunk.data_ptr < data.len()
            },
            None => {
                ||| u32_at(data, at + 24) == Some(0u32)
                ||| u32_at(data, at + 28) == Some(0u32)
                ||| u32_at(data, at + 56) == Some(0u32)
                ||| u32_at(data, at + 56)->0 >= data.len()
            },
        },
{
    let d = layout.defs_count as int;
    assert(0 <= index % d < d && (index - index % d) % d == 0) by (nonlinear_arith)
        requires
            d > 0,
            index >= 0,
    ;
}

/// Where no record has channel numbers, the table has the chunks of its records one after the
/// other, as long as they lie in the file.
pub proof fn law_a_compact_table(data: Seq<u8>, layout: Layout, index: int)
    requires
        layout.valid(data.len() as int),
        0 <= index <= layout.chunk_count,
    ensures
        ({
            let width = (layout.next_offset - layout.chunk_offset) / layout.chunk_count as int;
            &&& compact_from(data, index, layout) == present(
                Seq::new(
                    (layout.chunk_count - index) as nat,
                    |k: int|
                        compact_chunk(
                            data,
                            layout.chunk_offset + (index + k) * width,
                            index + k,
                            layout,
                        ),
                ),
            )
            &&& width >= 60 && native_chunks(data, layout, true).len() == 0 && index == 0
                ==> chunk_table(data, layout, true) == compact_from(data, 0, layout)
            &&& width >= 60 && native_chunks(data, layout, false).len() == 0 && index == 0
                ==> chunk_table(data, layout, false) == compact_from(data, 0, layout)
        }),
    decreases layout.chunk_count - index,
{
    let width = (layout.next_offset - layout.chunk_offset) / layout.chunk_count as int;
    let count = layout.chunk_count as int;
    let records = Seq::new(
        (count - index) as nat,
        |k: int|
            compact_chunk(data, layout.chunk_offset + (index + k) * width, index + k, layout),
    );
    if index < count {
        law_a_compact_table(data, layout, index + 1);
        let span = layout.next_offset - layout.chunk_offset;
        assert((index + 1) * width <= span && (index + 1) * width == index * width + width)
            by (nonlinear_arith)
            requires
                width == span / count,
                index + 1 <= count,
                span > 0,
                count > 0,
                0 <= index,
        ;
        let rest = Seq::new(
            (count - index - 1) as nat,
            |k: int|
                compact_chunk(
                    data,
                    layout.chunk_offset + (index + 1 + k) * width,
                    index + 1 + k,
                    layout,
                ),
        );
        let first = compact_chunk(data, layout.chunk_offset + index * width, index, layout);
        assert(records =~= seq![first] + rest);
        lemma_present_front(first, rest);
    } else {
        assert(records =~= Seq::empty());
    }
}

// ---------------------------------------------------------------------------------------
// The file
// ---------------------------------------------------------------------------------------
/// A file cannot be read exactly if it is smaller than 256 bytes, if its directory has fewer
/// than three records, if no three of them tell a layout, or if it defines no channel; the
/// message tells the first of these.
pub proof fn law_what_cannot_be_read(data: Seq<u8>)
    requires
        data.len() <= usize::MAX,
    ensures
        ({
            let told = exists|i: int| #[trigger]
                tells_some_layout(directory(data), i, data.len() as int);
            if data.len() < 256 {
                failure(data) == Some("file is smaller than 256 bytes"@)
            } else if directory(data).len() < 3 {
                failure(data) == Some("directory has fewer than three entries"@)
            } else if !told {
                failure(data) == Some("no valid definitions/chunk layout found"@)
            } else if file_definitions(data, file_layout(data)->0).len() == 0 {
                failure(data) == Some("no channel definitions found"@)
            } else {
                failure(data) is None
            }
        }),
{
    law_layout_is_the_first_told(data);
    if let Some(layout) = file_layout(data) {
        let i = choose|i: int| #[trigger]
            tells_layout(directory(data), i, data.len() as int, layout) && forall|j: int|
                0 <= j < i ==> !#[trigger] tells_some_layout(
                    directory(data),
                    j,
                    data.len() as int,
                );
        assert(tells_layout(directory(data), i, data.len() as int, layout));
        assert(tells_some_layout(directory(data), i, data.len() as int));
    }
}

/// What is said about a file that cannot be read.
pub proof fn law_messages_about_files(error: PdsError)
    ensures
        error.message_text() == (match error {
            PdsError::Io { path, source } => "I/O error for "@ + path@ + ": "@ + source@,
            PdsError::Glob { pattern, source } => "invalid glob "@ + pattern@ + ": "@ + source@,
            PdsError::NoFiles(pattern) => "no files matched "@ + pattern@,
            PdsError::Invalid { path, message } => "invalid PDS file "@ + path@ + ": "@ + message@,
        }),
{
}

/// The records of the chunk table that belong to a definition: all that have its number, if it
/// is the first with it, and none otherwise.
pub open spec fn records_for(defs: Seq<Definition>, raw: Seq<RawChunk>, k: int) -> Seq<RawChunk> {
    if exists|j: int| 0 <= j < k && (#[trigger] defs[j]).id == defs[k].id {
        Seq::empty()
    } else {
        raw.filter(|record: RawChunk| record.channel_id == defs[k].id)
    }
}

/// Reading a file gives one channel for each definition, in their order, with all samples of
/// all its records that lie in the file and with nothing else.
pub proof fn law_a_file_is_read_with_all_its_samples(
    channels: Seq<Channel>,
    data: Seq<u8>,
    k: int,
)
    requires
        are_channels_of(channels, data),
        0 <= k < channels.len(),
    ensures
        ({
            let layout = file_layout(data)->0;
            let defs = file_definitions(data, layout);
            let raw = chunk_table(data, layout, is_export_file(data, layout));
            let width = bytes_of(defs[k].sample_type);
            let size = data.len() as int;
            let own = records_for(defs, raw, k);
            let stored = own.filter(|record: RawChunk| has_stored(record, width, size));
            &&& channels.len() == defs.len()
            &&& channels[k].id == defs[k].id
            &&& channels[k].name@ == defs[k].name
            &&& channels[k].unit@ == defs[k].unit
            &&& channels[k].sample_type == defs[k].sample_type
            &&& channels[k].chunks@.len() == stored.len()
            &&& forall|i: int|
                0 <= i < stored.len() ==> has_all_of(
                    #[trigger] channels[k].chunks@[i],
                    stored[i],
                    width,
                    size,
                )
        }),
{
    let layout = file_layout(data)->0;
    let defs = file_definitions(data, layout);
    let raw = chunk_table(data, layout, is_export_file(data, layout));
    crate::laws::pds::law_records_go_to_their_channel(raw, defs[k].id);
    assert(chunks_for(defs, raw, k) == records_for(defs, raw, k));
    crate::laws::pds::law_a_channel_has_all_its_samples(
        channels[k],
        defs[k],
        chunks_for(defs, raw, k),
        data.len() as int,
    );
}

} // verus!

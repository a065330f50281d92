//! What holds of exports.
use crate::export::{
    conversion_of, first_named, is_mapped, mapped, mapping_question, projection, same_clock,
    sum_question, untouched, with_mapping, with_sum, with_sums, with_unmapped, ExportChannel,
    ExportInputs, ExportModel, SumReply, UnitReply,
};
use crate::filter::has_name;
use crate::number::Affine;
use crate::sample::SampleType;
use crate::source::{ChannelModel, SourceChannel};
use crate::text::{lower, trim};
use vstd::prelude::*;

verus! {

// ---------------------------------------------------------------------------------------
// What a channel of an export is
// ---------------------------------------------------------------------------------------
/// Whether a channel is the first of a name.
pub open spec fn is_first_of(source: Seq<SourceChannel>, name: Seq<char>, c: int) -> bool {
    &&& 0 <= c < source.len()
    &&& lower(source[c].name@) == lower(name)
    &&& forall|d: int| 0 <= d < c ==> lower((#[trigger] source[d]).name@) != lower(name)
}

/// Whether no channel has a name.
pub open spec fn is_missing(source: Seq<SourceChannel>, name: Seq<char>) -> bool {
    forall|d: int| 0 <= d < source.len() ==> lower((#[trigger] source[d]).name@) != lower(name)
}

/// Whether a conversion multiplies by one and adds a zero, so that it changes no value.
pub open spec fn keeps_values(conversion: Affine) -> bool {
    conversion.scale == 0x3ff0_0000_0000_0000u64 && (conversion.offset == 0 || conversion.offset
        == 0x8000_0000_0000_0000u64)
}

/// Whether two units are one: they are spelled alike, or both are known and have one canonical
/// spelling.
pub open spec fn is_one_unit(from: Seq<char>, to: Seq<char>, reply: UnitReply) -> bool {
    ||| lower(from) == lower(to)
    ||| reply.from is Some && reply.to is Some && reply.from->0@ == reply.to->0@
}

/// Whether a conversion leads from one unit to another: it is none where they are one unit, and
/// otherwise, scale and offset alike, the one that the registry states.
pub open spec fn leads(
    from: Seq<char>,
    to: Seq<char>,
    reply: UnitReply,
    conversion: Affine,
) -> bool {
    if is_one_unit(from, to, reply) {
        conversion.scale == 0x3ff0_0000_0000_0000u64 && conversion.offset == 0
    } else {
        &&& reply.conversion matches Ok(stated)
        &&& conversion.scale == stated.scale
        &&& conversion.offset == stated.offset
    }
}

/// A conversion is owed exactly if the two are one unit or the registry states one, and it is
/// none in the first case and the registry's in the second; otherwise the registry's message
/// says why there is none.
pub proof fn law_conversions_lead_between_units(
    from: Seq<char>,
    to: Seq<char>,
    reply: UnitReply,
)
    ensures
        match conversion_of(from, to, reply) {
            Ok(conversion) => leads(from, to, reply, conversion),
            Err(message) => !is_one_unit(from, to, reply) && reply.conversion is Err
                && reply.conversion->Err_0@ == message,
        },
{
}

/// Whether an exported channel is what a row of a mapping asks for: the first channel of the
/// name in the row, under the row's target and in the row's unit, with its samples converted
/// from its own unit to that one.
pub open spec fn is_mapping_of(
    channel: ChannelModel,
    export: ExportChannel,
    source: Seq<SourceChannel>,
    row: Seq<String>,
    reply: UnitReply,
    c: int,
) -> bool {
    let unit = trim(row[2]@);
    &&& is_first_of(source, row[0]@, c)
    &&& export.inputs == ExportInputs::Direct(c as usize)
    &&& channel.name == trim(row[1]@)
    &&& channel.name.len() > 0
    &&& unit.len() > 0 ==> channel.unit == unit && channel.unit_source is Declared
    &&& unit.len() == 0 ==> channel.unit == source[c].unit@ && channel.unit_source
        == source[c].unit_source
    &&& leads(source[c].unit@, channel.unit, reply, export.conversion)
    &&& channel.sample_type == (if keeps_values(export.conversion) {
        source[c].sample_type
    } else {
        SampleType::F64
    })
    &&& channel.id == source[c].id
    &&& channel.chunks == source[c].chunks@
    &&& channel.sample_count == source[c].sample_count
    &&& channel.duration_ns == source[c].duration_ns
}

/// Whether an exported channel is what a row of sums asks for: the sum of the first channels of
/// two names with one clock and one unit, converted from that unit to the row's.
pub open spec fn is_sum_of(
    channel: ChannelModel,
    export: ExportChannel,
    source: Seq<SourceChannel>,
    row: Seq<String>,
    reply: SumReply,
    l: int,
    r: int,
) -> bool {
    &&& is_first_of(source, row[0]@, l)
    &&& is_first_of(source, row[1]@, r)
    &&& export.inputs == ExportInputs::Sum(l as usize, r as usize)
    &&& has_clock_of(source[l], source[r])
    &&& lower(source[l].unit@) == lower(source[r].unit@) || reply.left is Some
    &&& reply.left is Some <==> reply.right is Some
    &&& reply.left is Some ==> reply.left->0@ == reply.right->0@
    &&& channel.name == trim(row[2]@)
    &&& channel.name.len() > 0
    &&& channel.unit == trim(row[3]@)
    &&& channel.unit.len() > 0
    &&& channel.unit_source is Declared
    &&& leads(source[l].unit@, channel.unit, reply.target, export.conversion)
    &&& channel.sample_type is F64
    &&& channel.id == source[l].id
    &&& channel.chunks == source[l].chunks@
    &&& channel.sample_count == source[l].sample_count
    &&& channel.duration_ns == source[l].duration_ns
}

/// Whether the samples of two channels are at the same times.
pub open spec fn has_clock_of(a: SourceChannel, b: SourceChannel) -> bool {
    &&& a.sample_count == b.sample_count
    &&& a.chunks@.len() == b.chunks@.len()
    &&& forall|i: int|
        0 <= i < a.chunks@.len() ==> (#[trigger] a.chunks@[i]).sample_period_ns
            == b.chunks@[i].sample_period_ns && a.chunks@[i].sample_count
            == b.chunks@[i].sample_count && a.chunks@[i].time_base_ns == b.chunks@[i].time_base_ns
}

/// Whether an exported channel is a channel of the source as it is.
pub open spec fn is_kept_as_it_is(
    channel: ChannelModel,
    export: ExportChannel,
    source: Seq<SourceChannel>,
    c: int,
) -> bool {
    &&& 0 <= c < source.len()
    &&& export.inputs == ExportInputs::Direct(c as usize)
    &&& export.conversion.scale == 0x3ff0_0000_0000_0000u64
    &&& export.conversion.offset == 0
    &&& channel.name == source[c].name@
    &&& channel.unit == source[c].unit@
    &&& channel.unit_source == source[c].unit_source
    &&& channel.sample_type == source[c].sample_type
    &&& channel.id == source[c].id
    &&& channel.chunks == source[c].chunks@
    &&& channel.sample_count == source[c].sample_count
    &&& channel.duration_ns == source[c].duration_ns
}

proof fn lemma_first(source: Seq<SourceChannel>, name: Seq<char>, i: int)
    requires
        source.len() <= usize::MAX,
        0 <= i <= source.len(),
        forall|d: int| 0 <= d < i ==> lower((#[trigger] source[d]).name@) != lower(name),
    ensures
        match first_named(source, name, i) {
            Some(c) => is_first_of(source, name, c as int),
            None => is_missing(source, name),
        },
        forall|c: int|
            is_first_of(source, name, c) ==> first_named(source, name, i) == Some(c as usize),
    decreases source.len() - i,
{
    if i < source.len() && lower(source[i].name@) != lower(name) {
        lemma_first(source, name, i + 1);
    }
    assert forall|c: int| is_first_of(source, name, c) implies first_named(source, name, i) == Some(
        c as usize,
    ) by {
        assert(lower(source[c].name@) == lower(name));
        if let Some(d) = first_named(source, name, i) {
            assert(lower(source[d as int].name@) == lower(name));
        }
    }
}

// ---------------------------------------------------------------------------------------
// What an export is made of
// ---------------------------------------------------------------------------------------
proof fn lemma_mapped(
    source: Seq<SourceChannel>,
    rows: Seq<Vec<String>>,
    replies: Seq<UnitReply>,
    i: int,
)
    requires
        source.len() <= usize::MAX,
        mapped(source, rows, replies) is Ok,
        0 <= i < rows.len(),
    ensures
        ({
            let model = mapped(source, rows, replies)->Ok_0;
            &&& model.channels.len() == rows.len()
            &&& model.exports.len() == rows.len()
            &&& exists|c: int| #[trigger]
                is_mapping_of(model.channels[i], model.exports[i], source, rows[i]@, replies[i], c)
        }),
    decreases rows.len(),
{
    let model = mapped(source, rows, replies)->Ok_0;
    let before = mapped(source, rows.drop_last(), replies)->Ok_0;
    lemma_mapped_len(source, rows, replies);
    lemma_mapped_len(source, rows.drop_last(), replies);
    if i < rows.len() - 1 {
        lemma_mapped(source, rows.drop_last(), replies, i);
        let c = choose|c: int| #[trigger]
            is_mapping_of(
                before.channels[i],
                before.exports[i],
                source,
                rows.drop_last()[i]@,
                replies[i],
                c,
            );
        assert(is_mapping_of(
            model.channels[i],
            model.exports[i],
            source,
            rows[i]@,
            replies[i],
            c,
        ));
    } else {
        let row = rows.last()@;
        lemma_first(source, row[0]@, 0);
        let c = first_named(source, row[0]@, 0)->0;
        assert(is_mapping_of(
            model.channels[i],
            model.exports[i],
            source,
            rows[i]@,
            replies[i],
            c as int,
        ));
    }
}

proof fn lemma_mapped_len(
    source: Seq<SourceChannel>,
    rows: Seq<Vec<String>>,
    replies: Seq<UnitReply>,
)
    ensures
        mapped(source, rows, replies) matches Ok(model) ==> model.channels.len() == rows.len()
            && model.exports.len() == rows.len(),
    decreases rows.len(),
{
    if rows.len() > 0 {
        lemma_mapped_len(source, rows.drop_last(), replies);
    }
}

/// Whether a channel goes into an export without a row of its own.
pub open spec fn goes_along(
    source: Seq<SourceChannel>,
    mapping: Seq<Vec<String>>,
    excluded: Seq<Seq<char>>,
    c: int,
) -> bool {
    &&& 0 <= c < source.len()
    &&& forall|i: int|
        0 <= i < mapping.len() ==> !is_first_of(source, (#[trigger] mapping[i])@[0]@, c)
    &&& forall|i: int|
        0 <= i < excluded.len() ==> lower(#[trigger] excluded[i]) != lower(source[c].name@)
}

proof fn lemma_is_mapped(source: Seq<SourceChannel>, rows: Seq<Vec<String>>, c: int)
    requires
        source.len() <= usize::MAX,
        0 <= c < source.len(),
    ensures
        is_mapped(source, rows, c) <==> exists|i: int|
            0 <= i < rows.len() && is_first_of(source, (#[trigger] rows[i])@[0]@, c),
{
    assert forall|i: int| 0 <= i < rows.len() implies (first_named(
        source,
        (#[trigger] rows[i])@[0]@,
        0,
    ) == Some(c as usize) <==> is_first_of(source, rows[i]@[0]@, c)) by {
        lemma_first(source, rows[i]@[0]@, 0);
    }
}

proof fn lemma_unmapped(
    model: ExportModel,
    source: Seq<SourceChannel>,
    rows: Seq<Vec<String>>,
    excluded: Seq<Seq<char>>,
    count: int,
)
    requires
        source.len() <= usize::MAX,
        0 <= count <= source.len(),
        model.channels.len() == model.exports.len(),
        with_unmapped(model, source, rows, excluded, count) is Ok,
    ensures
        ({
            let after = with_unmapped(model, source, rows, excluded, count)->Ok_0;
            let n = model.channels.len() as int;
            &&& after.channels.len() == after.exports.len() >= n
            &&& after.channels.take(n) == model.channels
            &&& after.exports.take(n) == model.exports
            &&& forall|k: int|
                n <= k < after.exports.len() ==> {
                    &&& (#[trigger] after.exports[k]).inputs matches ExportInputs::Direct(c)
                    &&& c < count
                    &&& goes_along(source, rows, excluded, c as int)
                    &&& is_kept_as_it_is(after.channels[k], after.exports[k], source, c as int)
                }
            &&& forall|c: int|
                0 <= c < count && #[trigger] goes_along(source, rows, excluded, c) ==> exists|
                    k: int,
                |
                    n <= k < after.exports.len() && (#[trigger] after.exports[k]).inputs
                        == ExportInputs::Direct(c as usize)
            &&& forall|j: int, k: int|
                n <= j < k < after.exports.len() ==> (#[trigger] after.exports[j]).inputs->Direct_0
                    < (#[trigger] after.exports[k]).inputs->Direct_0
        }),
    decreases count,
{
    let after = with_unmapped(model, source, rows, excluded, count)->Ok_0;
    let n = model.channels.len() as int;
    if count == 0 {
        assert(after.channels.take(n) =~= model.channels);
        assert(after.exports.take(n) =~= model.exports);
    } else {
        let c = count - 1;
        lemma_unmapped(model, source, rows, excluded, c);
        lemma_is_mapped(source, rows, c);
        let before = with_unmapped(model, source, rows, excluded, c)->Ok_0;
        let key = lower(source[c].name@);
        assert(has_name(excluded, key) <==> exists|i: int|
            0 <= i < excluded.len() && lower(#[trigger] excluded[i]) == key);
        assert(goes_along(source, rows, excluded, c) <==> !(is_mapped(source, rows, c) || has_name(
            excluded,
            key,
        )));
        if goes_along(source, rows, excluded, c) {
            assert(after.channels.take(n) =~= before.channels.take(n));
            assert(after.exports.take(n) =~= before.exports.take(n));
            let last = after.exports.len() - 1;
            assert(after.exports[last].inputs == ExportInputs::Direct(c as usize));
            assert(after.exports =~= before.exports.push(after.exports[last]));
            assert forall|d: int|
                0 <= d < count && #[trigger] goes_along(
                    source,
                    rows,
                    excluded,
                    d,
                ) implies exists|k: int|
                n <= k < after.exports.len() && (#[trigger] after.exports[k]).inputs
                    == ExportInputs::Direct(d as usize) by {
                if d < c {
                    let k = choose|k: int|
                        n <= k < before.exports.len() && (#[trigger] before.exports[k]).inputs
                            == ExportInputs::Direct(d as usize);
                    assert(after.exports[k] == before.exports[k]);
                }
            }
            assert forall|k: int| n <= k < after.exports.len() implies ({
                &&& (#[trigger] after.exports[k]).inputs matches ExportInputs::Direct(d)
                &&& d < count
                &&& goes_along(source, rows, excluded, d as int)
                &&& is_kept_as_it_is(after.channels[k], after.exports[k], source, d as int)
            }) by {
                if k < last {
                    assert(after.exports[k] == before.exports[k]);
                    assert(after.channels[k] == before.channels[k]);
                }
            }
            assert forall|j: int, k: int|
                n <= j < k < after.exports.len() implies (
            #[trigger] after.exports[j]).inputs->Direct_0 < (
            #[trigger] after.exports[k]).inputs->Direct_0 by {
                assert(after.exports[j] == before.exports[j]);
                if k < last {
                    assert(after.exports[k] == before.exports[k]);
                }
            }
        }
    }
}

/// Whether the `k`-th exported channel is what a row of sums asks for.
pub open spec fn has_sum_at(
    model: ExportModel,
    source: Seq<SourceChannel>,
    row: Seq<String>,
    reply: SumReply,
    k: int,
) -> bool {
    exists|l: int, r: int| #[trigger]
        is_sum_of(model.channels[k], model.exports[k], source, row, reply, l, r)
}

proof fn lemma_sums(
    model: ExportModel,
    source: Seq<SourceChannel>,
    rows: Seq<Vec<String>>,
    replies: Seq<SumReply>,
)
    requires
        source.len() <= usize::MAX,
        model.channels.len() == model.exports.len(),
        with_sums(model, source, rows, replies) is Ok,
    ensures
        ({
            let after = with_sums(model, source, rows, replies)->Ok_0;
            let n = model.channels.len() as int;
            &&& after.channels.len() == after.exports.len() == n + rows.len()
            &&& after.channels.take(n) == model.channels
            &&& after.exports.take(n) == model.exports
            &&& forall|i: int|
                0 <= i < rows.len() ==> has_sum_at(
                    after,
                    source,
                    (#[trigger] rows[i])@,
                    replies[i],
                    n + i,
                )
        }),
    decreases rows.len(),
{
    let after = with_sums(model, source, rows, replies)->Ok_0;
    let n = model.channels.len() as int;
    if rows.len() == 0 {
        assert(after.channels.take(n) =~= model.channels);
        assert(after.exports.take(n) =~= model.exports);
    } else {
        let front = rows.drop_last();
        lemma_sums(model, source, front, replies);
        let before = with_sums(model, source, front, replies)->Ok_0;
        assert(after.channels.take(n) =~= before.channels.take(n));
        assert(after.exports.take(n) =~= before.exports.take(n));
        assert forall|i: int| 0 <= i < rows.len() implies has_sum_at(
            after,
            source,
            (#[trigger] rows[i])@,
            replies[i],
            n + i,
        ) by {
            if i < front.len() {
                assert(has_sum_at(before, source, front[i]@, replies[i], n + i));
                let (l, r) = choose|l: int, r: int| #[trigger]
                    is_sum_of(
                        before.channels[n + i],
                        before.exports[n + i],
                        source,
                        front[i]@,
                        replies[i],
                        l,
                        r,
                    );
                assert(is_sum_of(
                    after.channels[n + i],
                    after.exports[n + i],
                    source,
                    rows[i]@,
                    replies[i],
                    l,
                    r,
                ));
            } else {
                let row = rows.last()@;
                lemma_first(source, row[0]@, 0);
                lemma_first(source, row[1]@, 0);
                let l = first_named(source, row[0]@, 0)->0 as int;
                let r = first_named(source, row[1]@, 0)->0 as int;
                assert forall|k: int| 0 <= k < source[l].chunks@.len() implies (
                #[trigger] source[l].chunks@[k]).sample_period_ns
                    == source[r].chunks@[k].sample_period_ns && source[l].chunks@[k].sample_count
                    == source[r].chunks@[k].sample_count && source[l].chunks@[k].time_base_ns
                    == source[r].chunks@[k].time_base_ns by {
                    assert(crate::export::same_times(source[l]@.chunks[k], source[r]@.chunks[k]));
                }
                assert(is_sum_of(
                    after.channels[n + i],
                    after.exports[n + i],
                    source,
                    rows[i]@,
                    replies[i],
                    l,
                    r,
                ));
            }
        }
    }
}

/// An export begins with its mappings: for each row of the mapping one channel, in the order of
/// the rows, that is what the row asks for, its samples converted from the unit that they have
/// to the unit that is wanted, by the scale and by the offset that the registry states, and by
/// none where the two are one unit.
pub proof fn law_mappings_carry_their_conversion(
    source: Seq<SourceChannel>,
    mapping: Seq<Vec<String>>,
    sums: Seq<Vec<String>>,
    include_unmapped: bool,
    excluded: Seq<Seq<char>>,
    replies: Seq<UnitReply>,
    sum_replies: Seq<SumReply>,
    i: int,
)
    requires
        source.len() <= usize::MAX,
        projection(source, mapping, sums, include_unmapped, excluded, replies, sum_replies) is Ok,
        0 <= i < mapping.len(),
    ensures
        ({
            let model = projection(
                source,
                mapping,
                sums,
                include_unmapped,
                excluded,
                replies,
                sum_replies,
            )->Ok_0;
            exists|c: int| #[trigger]
                is_mapping_of(
                    model.channels[i],
                    model.exports[i],
                    source,
                    mapping[i]@,
                    replies[i],
                    c,
                )
        }),
{
    let first = mapped(source, mapping, replies)->Ok_0;
    lemma_mapped_len(source, mapping, replies);
    lemma_mapped(source, mapping, replies, i);
    let count = if include_unmapped {
        source.len() as int
    } else {
        0
    };
    lemma_unmapped(first, source, mapping, excluded, count);
    let second = with_unmapped(first, source, mapping, excluded, count)->Ok_0;
    lemma_sums(second, source, sums, sum_replies);
    let third = with_sums(second, source, sums, sum_replies)->Ok_0;
    assert(second.channels[i] == third.channels.take(second.channels.len() as int)[i]);
    assert(second.exports[i] == third.exports.take(second.channels.len() as int)[i]);
    assert(first.channels[i] == second.channels.take(first.channels.len() as int)[i]);
    assert(first.exports[i] == second.exports.take(first.channels.len() as int)[i]);
}

/// An export ends with its sums: for each row of sums one channel, in the order of the rows,
/// that is what the row asks for.
pub proof fn law_sums_are_what_was_asked_for(
    source: Seq<SourceChannel>,
    mapping: Seq<Vec<String>>,
    sums: Seq<Vec<String>>,
    include_unmapped: bool,
    excluded: Seq<Seq<char>>,
    replies: Seq<UnitReply>,
    sum_replies: Seq<SumReply>,
    i: int,
)
    requires
        source.len() <= usize::MAX,
        projection(source, mapping, sums, include_unmapped, excluded, replies, sum_replies) is Ok,
        0 <= i < sums.len(),
    ensures
        ({
            let model = projection(
                source,
                mapping,
                sums,
                include_unmapped,
                excluded,
                replies,
                sum_replies,
            )->Ok_0;
            let k = model.channels.len() - sums.len() + i;
            has_sum_at(model, source, sums[i]@, sum_replies[i], k)
        }),
{
    let first = mapped(source, mapping, replies)->Ok_0;
    lemma_mapped_len(source, mapping, replies);
    let count = if include_unmapped {
        source.len() as int
    } else {
        0
    };
    lemma_unmapped(first, source, mapping, excluded, count);
    let second = with_unmapped(first, source, mapping, excluded, count)->Ok_0;
    lemma_sums(second, source, sums, sum_replies);
    let third = with_sums(second, source, sums, sum_replies)->Ok_0;
    assert(has_sum_at(
        third,
        source,
        sums[i]@,
        sum_replies[i],
        third.channels.len() - sums.len() + i,
    ));
}

/// Between its mappings and its sums an export has, each once and in their order, exactly those
/// channels that no row of the mapping takes and that are not excluded, as they are; it has
/// none of them where a mapping, sums or exclusions are given and the rest is not wanted.
pub proof fn law_the_rest_goes_along_as_it_is(
    source: Seq<SourceChannel>,
    mapping: Seq<Vec<String>>,
    sums: Seq<Vec<String>>,
    include_unmapped: bool,
    excluded: Seq<Seq<char>>,
    replies: Seq<UnitReply>,
    sum_replies: Seq<SumReply>,
)
    requires
        source.len() <= usize::MAX,
        projection(source, mapping, sums, include_unmapped, excluded, replies, sum_replies) is Ok,
    ensures
        ({
            let model = projection(
                source,
                mapping,
                sums,
                include_unmapped,
                excluded,
                replies,
                sum_replies,
            )->Ok_0;
            let wanted = include_unmapped || (mapping.len() == 0 && sums.len() == 0
                && excluded.len() == 0);
            let from = mapping.len() as int;
            let to = model.exports.len() - sums.len();
            &&& model.channels.len() == model.exports.len()
            &&& from <= to
            &&& !wanted ==> from == to
            &&& forall|k: int|
                from <= k < to ==> {
                    &&& (#[trigger] model.exports[k]).inputs matches ExportInputs::Direct(c)
                    &&& goes_along(source, mapping, excluded, c as int)
                    &&& is_kept_as_it_is(model.channels[k], model.exports[k], source, c as int)
                }
            &&& forall|c: int| #[trigger]
                goes_along(source, mapping, excluded, c) && wanted ==> exists|k: int|
                    from <= k < to && (#[trigger] model.exports[k]).inputs == ExportInputs::Direct(
                        c as usize,
                    )
            &&& forall|j: int, k: int|
                from <= j < k < to ==> (#[trigger] model.exports[j]).inputs->Direct_0 < (
                #[trigger] model.exports[k]).inputs->Direct_0
        }),
{
    if mapping.len() == 0 && sums.len() == 0 && excluded.len() == 0 {
        let model = untouched(source);
        assert forall|c: int| #[trigger]
            goes_along(source, mapping, excluded, c) implies exists|k: int|
            0 <= k < source.len() && (#[trigger] model.exports[k]).inputs == ExportInputs::Direct(
                c as usize,
            ) by {
            assert(model.exports[c].inputs == ExportInputs::Direct(c as usize));
        }
    } else {
        let first = mapped(source, mapping, replies)->Ok_0;
        lemma_mapped_len(source, mapping, replies);
        let count = if include_unmapped {
            source.len() as int
        } else {
            0
        };
        lemma_unmapped(first, source, mapping, excluded, count);
        let second = with_unmapped(first, source, mapping, excluded, count)->Ok_0;
        lemma_sums(second, source, sums, sum_replies);
        let model = with_sums(second, source, sums, sum_replies)->Ok_0;
        let to = second.exports.len() as int;
        assert forall|k: int| 0 <= k < to implies model.exports[k] == #[trigger] second.exports[k]
            && model.channels[k] == second.channels[k] by {
            assert(model.exports.take(to)[k] == second.exports[k]);
            assert(model.channels.take(to)[k] == second.channels[k]);
        }
        let from = mapping.len() as int;
        assert forall|k: int| from <= k < to implies ({
            &&& (#[trigger] model.exports[k]).inputs matches ExportInputs::Direct(c)
            &&& goes_along(source, mapping, excluded, c as int)
            &&& is_kept_as_it_is(model.channels[k], model.exports[k], source, c as int)
        }) by {
            assert(model.exports[k] == second.exports[k]);
        }
        assert forall|c: int| #[trigger]
            goes_along(source, mapping, excluded, c) && include_unmapped implies exists|k: int|
            from <= k < to && (#[trigger] model.exports[k]).inputs == ExportInputs::Direct(
                c as usize,
            ) by {
            let k = choose|k: int|
                from <= k < second.exports.len() && (#[trigger] second.exports[k]).inputs
                    == ExportInputs::Direct(c as usize);
            assert(model.exports[k] == second.exports[k]);
        }
        assert forall|j: int, k: int| from <= j < k < to implies (
        #[trigger] model.exports[j]).inputs->Direct_0 < (
        #[trigger] model.exports[k]).inputs->Direct_0 by {
            assert(model.exports[j] == second.exports[j]);
            assert(model.exports[k] == second.exports[k]);
        }
    }
}

// ---------------------------------------------------------------------------------------
// What is refused
// ---------------------------------------------------------------------------------------
/// A row of a mapping is taken exactly if its channel is there, its target is not empty and not
/// taken, and its unit can be reached; otherwise the message says which of these fails.
pub proof fn law_refused_mappings(
    model: ExportModel,
    source: Seq<SourceChannel>,
    row: Seq<String>,
    reply: UnitReply,
    c: int,
)
    requires
        source.len() <= usize::MAX,
    ensures
        ({
            let result = with_mapping(model, source, row, reply);
            let target = trim(row[1]@);
            let taken = exists|k: int|
                0 <= k < model.channels.len() && lower((#[trigger] model.channels[k]).name)
                    == lower(target);
            &&& is_missing(source, row[0]@) ==> result == Err::<ExportModel, Seq<char>>(
                "export source channel not found: "@ + row[0]@,
            )
            &&& is_first_of(source, row[0]@, c) ==> {
                let from = source[c].unit@;
                let to = if trim(row[2]@).len() > 0 {
                    trim(row[2]@)
                } else {
                    from
                };
                if target.len() == 0 {
                    result == Err::<ExportModel, Seq<char>>("empty target name for "@ + row[0]@)
                } else if taken {
                    result == Err::<ExportModel, Seq<char>>(
                        "duplicate export target channel: "@ + target,
                    )
                } else if is_one_unit(from, to, reply) || reply.conversion is Ok {
                    result is Ok
                } else {
                    result == Err::<ExportModel, Seq<char>>(reply.conversion->Err_0@)
                }
            }
        }),
{
    lemma_first(source, row[0]@, 0);
}

/// A row of sums is taken exactly if its channels are there, have one clock and one unit, its
/// target and its unit are not empty, the target is not taken, and the unit can be reached;
/// otherwise the message says which of these fails.
pub proof fn law_refused_sums(
    model: ExportModel,
    source: Seq<SourceChannel>,
    row: Seq<String>,
    reply: SumReply,
    l: int,
    r: int,
)
    requires
        source.len() <= usize::MAX,
    ensures
        ({
            let result = with_sum(model, source, row, reply);
            let target = trim(row[2]@);
            let unit = trim(row[3]@);
            let taken = exists|k: int|
                0 <= k < model.channels.len() && lower((#[trigger] model.channels[k]).name)
                    == lower(target);
            &&& is_missing(source, row[0]@) ==> result == Err::<ExportModel, Seq<char>>(
                "export source channel not found: "@ + row[0]@,
            )
            &&& is_first_of(source, row[0]@, l) && is_missing(source, row[1]@) ==> result == Err::<
                ExportModel,
                Seq<char>,
            >("export source channel not found: "@ + row[1]@)
            &&& is_first_of(source, row[0]@, l) && is_first_of(source, row[1]@, r) ==> {
                let left = source[l];
                let right = source[r];
                let known_alike = reply.left is Some && reply.right is Some && reply.left->0@
                    == reply.right->0@;
                let unknown_alike = reply.left is None && reply.right is None && lower(left.unit@)
                    == lower(right.unit@);
                if !has_clock_of(left, right) {
                    result == Err::<ExportModel, Seq<char>>(
                        "cannot sum "@ + row[0]@ + " and "@ + row[1]@ + ": sample clocks differ"@,
                    )
                } else if !(known_alike || unknown_alike) {
                    result == Err::<ExportModel, Seq<char>>(
                        "cannot sum "@ + row[0]@ + " ["@ + left.unit@ + "] and "@ + row[1]@ + " ["@
                            + right.unit@ + "]: units differ"@,
                    )
                } else if target.len() == 0 || unit.len() == 0 {
                    result == Err::<ExportModel, Seq<char>>(
                        "sum_channels target name and unit cannot be empty"@,
                    )
                } else if taken {
                    result == Err::<ExportModel, Seq<char>>(
                        "duplicate export target channel: "@ + target,
                    )
                } else if is_one_unit(left.unit@, unit, reply.target)
                    || reply.target.conversion is Ok {
                    result is Ok
                } else {
                    result == Err::<ExportModel, Seq<char>>(reply.target.conversion->Err_0@)
                }
            }
        }),
{
    lemma_first(source, row[0]@, 0);
    lemma_first(source, row[1]@, 0);
    if is_first_of(source, row[0]@, l) && is_first_of(source, row[1]@, r) {
        let a = source[l]@;
        let b = source[r]@;
        if has_clock_of(source[l], source[r]) {
            assert forall|k: int| 0 <= k < a.chunks.len() implies crate::export::same_times(
                #[trigger] a.chunks[k],
                b.chunks[k],
            ) by {
                assert(source[l].chunks@[k] == a.chunks[k]);
            }
            assert(same_clock(a, b));
        }
        if same_clock(a, b) {
            assert forall|k: int| 0 <= k < source[l].chunks@.len() implies (
            #[trigger] source[l].chunks@[k]).sample_period_ns
                == source[r].chunks@[k].sample_period_ns && source[l].chunks@[k].sample_count
                == source[r].chunks@[k].sample_count && source[l].chunks@[k].time_base_ns
                == source[r].chunks@[k].time_base_ns by {
                assert(crate::export::same_times(a.chunks[k], b.chunks[k]));
            }
            assert(has_clock_of(source[l], source[r]));
        }
    }
}

/// The registry is asked for the unit that the channel has and the unit that is wanted.
pub proof fn law_the_registry_is_asked_for_both_units(
    source: Seq<SourceChannel>,
    row: Seq<String>,
    c: int,
    d: int,
)
    requires
        source.len() <= usize::MAX,
        is_first_of(source, row[0]@, c),
    ensures
        trim(row[2]@).len() > 0 ==> mapping_question(source, row) == (
            source[c].unit@,
            trim(row[2]@),
        ),
        trim(row[2]@).len() == 0 ==> mapping_question(source, row) == (
            source[c].unit@,
            source[c].unit@,
        ),
        is_first_of(source, row[1]@, d) ==> sum_question(source, row) == (
            source[c].unit@,
            source[d].unit@,
            trim(row[3]@),
        ),
{
    lemma_first(source, row[0]@, 0);
    lemma_first(source, row[1]@, 0);
}

/// An export fails with its first row that fails: a mapping that is taken so far stands, and
/// the next row alone decides.
pub proof fn law_an_export_fails_by_its_first_bad_row(
    source: Seq<SourceChannel>,
    rows: Seq<Vec<String>>,
    row: Vec<String>,
    replies: Seq<UnitReply>,
    sums: Seq<Vec<String>>,
    sum: Vec<String>,
    sum_replies: Seq<SumReply>,
    model: ExportModel,
)
    ensures
        mapped(source, Seq::empty(), replies) == Ok::<ExportModel, Seq<char>>(
            ExportModel { channels: Seq::empty(), exports: Seq::empty() },
        ),
        mapped(source, rows.push(row), replies) == (match mapped(source, rows, replies) {
            Ok(before) => with_mapping(before, source, row@, replies[rows.len() as int]),
            Err(message) => Err(message),
        }),
        with_sums(model, source, Seq::empty(), sum_replies) == Ok::<ExportModel, Seq<char>>(model),
        with_sums(model, source, sums.push(sum), sum_replies) == (match with_sums(
            model,
            source,
            sums,
            sum_replies,
        ) {
            Ok(before) => with_sum(before, source, sum@, sum_replies[sums.len() as int]),
            Err(message) => Err(message),
        }),
{
    assert(rows.push(row).drop_last() =~= rows);
    assert(sums.push(sum).drop_last() =~= sums);
}

/// A channel that goes along fails exactly if its name is taken by a mapping or by a channel
/// before it.
pub proof fn law_a_channel_that_goes_along_fails_by_its_name(
    model: ExportModel,
    source: Seq<SourceChannel>,
    rows: Seq<Vec<String>>,
    excluded: Seq<Seq<char>>,
    c: int,
)
    requires
        source.len() <= usize::MAX,
        0 <= c < source.len(),
    ensures
        ({
            let before = with_unmapped(model, source, rows, excluded, c);
            let after = with_unmapped(model, source, rows, excluded, c + 1);
            &&& with_unmapped(model, source, rows, excluded, 0) == Ok::<ExportModel, Seq<char>>(
                model,
            )
            &&& before matches Err(message) ==> after == Err::<ExportModel, Seq<char>>(message)
            &&& before matches Ok(before) ==> {
                let taken = exists|k: int|
                    0 <= k < before.channels.len() && lower((#[trigger] before.channels[k]).name)
                        == lower(source[c].name@);
                &&& !goes_along(source, rows, excluded, c) ==> after == Ok::<
                    ExportModel,
                    Seq<char>,
                >(before)
                &&& goes_along(source, rows, excluded, c) && taken ==> after == Err::<
                    ExportModel,
                    Seq<char>,
                >("duplicate export target channel: "@ + source[c].name@)
                &&& goes_along(source, rows, excluded, c) && !taken ==> after is Ok
            }
        }),
{
    lemma_is_mapped(source, rows, c);
    assert(has_name(excluded, lower(source[c].name@)) <==> exists|i: int|
        0 <= i < excluded.len() && lower(#[trigger] excluded[i]) == lower(source[c].name@));
}

/// An export is made in three steps, and fails as the first of them does that fails.
pub proof fn law_an_export_is_made_in_three_steps(
    source: Seq<SourceChannel>,
    mapping: Seq<Vec<String>>,
    sums: Seq<Vec<String>>,
    include_unmapped: bool,
    excluded: Seq<Seq<char>>,
    replies: Seq<UnitReply>,
    sum_replies: Seq<SumReply>,
)
    ensures
        ({
            let result = projection(
                source,
                mapping,
                sums,
                include_unmapped,
                excluded,
                replies,
                sum_replies,
            );
            let count = if include_unmapped {
                source.len() as int
            } else {
                0
            };
            if mapping.len() == 0 && sums.len() == 0 && excluded.len() == 0 {
                result is Ok
            } else {
                match mapped(source, mapping, replies) {
                    Err(message) => result == Err::<ExportModel, Seq<char>>(message),
                    Ok(first) => match with_unmapped(first, source, mapping, excluded, count) {
                        Err(message) => result == Err::<ExportModel, Seq<char>>(message),
                        Ok(second) => (result is Ok) == (with_sums(
                            second,
                            source,
                            sums,
                            sum_replies,
                        ) is Ok),
                    },
                }
            }
        }),
{
}

} // verus!

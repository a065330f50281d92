//! What is written to a file: channels renamed, converted, summed, left out.
use crate::cell::{text_cell, Cell, CellModel};
use crate::filter::{has_name, holds_ignoring_case};
use crate::number::{identity, Affine, ONE, ZERO};
use crate::sample::SampleType;
use crate::source::{ChannelModel, SourceChannel, SourceChunk, UnitSource};
use crate::text::{lower, optional_text, same_ignoring_case, texts, to_lower, trim, trimmed};
use vstd::prelude::*;

verus! {

/// The source channels whose samples an exported channel has: those of one, or the sums of two.
#[derive(Debug, Clone, Copy, PartialEq, Eq, Structural)]
pub enum ExportInputs {
    Direct(usize),
    Sum(usize, usize),
}

/// How the samples of an exported channel come about.
#[derive(Debug, Clone, Copy, PartialEq, Eq, Structural)]
pub struct ExportChannel {
    pub inputs: ExportInputs,
    pub conversion: Affine,
}

/// A projection of a source: its channels, and for each how its samples come about.
#[derive(Debug)]
pub struct ExportSource {
    pub channels: Vec<SourceChannel>,
    pub exports: Vec<ExportChannel>,
}

/// What the registry of units says of two units.
#[derive(Debug)]
pub struct UnitReply {
    /// The canonical spelling of the first, if it is known.
    pub from: Option<String>,
    /// The canonical spelling of the second, if it is known.
    pub to: Option<String>,
    /// The conversion from the first to the second, or why there is none.
    pub conversion: Result<Affine, String>,
}

/// What the registry of units says of a sum.
#[derive(Debug)]
pub struct SumReply {
    /// The canonical spelling of the first channel's unit, if it is known.
    pub left: Option<String>,
    /// The canonical spelling of the second channel's unit, if it is known.
    pub right: Option<String>,
    /// Of the first channel's unit and the unit that is wanted.
    pub target: UnitReply,
}

/// What a projection is.
#[verifier::ext_equal]
pub struct ExportModel {
    pub channels: Seq<ChannelModel>,
    pub exports: Seq<ExportChannel>,
}

/// What channels are.
pub open spec fn models_of(channels: Seq<SourceChannel>) -> Seq<ChannelModel> {
    Seq::new(channels.len(), |i: int| channels[i]@)
}

impl View for ExportSource {
    type V = ExportModel;

    open spec fn view(&self) -> ExportModel {
        ExportModel { channels: models_of(self.channels@), exports: self.exports@ }
    }
}

// ---------------------------------------------------------------------------------------
// What a projection is
// ---------------------------------------------------------------------------------------
/// Whether two units are the same: their spellings differ in case alone, or both are known and
/// have the same canonical spelling. Nothing is taken for the same because it is not known.
pub open spec fn same_unit(
    a: Seq<char>,
    b: Seq<char>,
    known_a: Option<Seq<char>>,
    known_b: Option<Seq<char>>,
) -> bool {
    lower(a) == lower(b) || (known_a is Some && known_a == known_b)
}

/// Whether values in two units can be summed: the units are the same, and the registry does not
/// tell them apart.
pub open spec fn summable(
    a: Seq<char>,
    b: Seq<char>,
    known_a: Option<Seq<char>>,
    known_b: Option<Seq<char>>,
) -> bool {
    same_unit(a, b, known_a, known_b) && known_a == known_b
}

/// The conversion between two units: none is needed where they are the same.
pub open spec fn conversion_of(from: Seq<char>, to: Seq<char>, reply: UnitReply) -> Result<
    Affine,
    Seq<char>,
> {
    if same_unit(from, to, optional_text(reply.from), optional_text(reply.to)) {
        Ok(identity())
    } else {
        match reply.conversion {
            Ok(conversion) => Ok(conversion),
            Err(message) => Err(message@),
        }
    }
}

/// The first channel from the `i`-th on with a name.
pub open spec fn first_named(channels: Seq<SourceChannel>, name: Seq<char>, i: int) -> Option<
    usize,
>
    decreases channels.len() - i,
{
    if i < 0 || i >= channels.len() {
        None
    } else if lower(channels[i].name@) == lower(name) {
        Some(i as usize)
    } else {
        first_named(channels, name, i + 1)
    }
}

/// Whether a target has a name already.
pub open spec fn name_taken(channels: Seq<ChannelModel>, name: Seq<char>) -> bool {
    exists|i: int|
        0 <= i < channels.len() && lower((#[trigger] channels[i]).name) == lower(name)
}

/// The message for a channel that is not there.
pub open spec fn unknown_channel(name: Seq<char>) -> Seq<char> {
    "export source channel not found: "@ + name
}

/// The message for a name that is there already.
pub open spec fn duplicate_target(name: Seq<char>) -> Seq<char> {
    "duplicate export target channel: "@ + name
}

/// The unit that a mapping asks for: its own, or that of the channel where it names none.
pub open spec fn wanted_unit(original: ChannelModel, unit: Seq<char>) -> Seq<char> {
    if unit.len() == 0 {
        original.unit
    } else {
        unit
    }
}

/// A projection with one more mapping: source, target name, target unit.
pub open spec fn with_mapping(
    model: ExportModel,
    source: Seq<SourceChannel>,
    row: Seq<String>,
    reply: UnitReply,
) -> Result<ExportModel, Seq<char>> {
    let target = trim(row[1]@);
    let unit = trim(row[2]@);
    match first_named(source, row[0]@, 0) {
        None => Err(unknown_channel(row[0]@)),
        Some(index) => {
            let original = source[index as int]@;
            if target.len() == 0 {
                Err("empty target name for "@ + row[0]@)
            } else if name_taken(model.channels, target) {
                Err(duplicate_target(target))
            } else {
                match conversion_of(original.unit, wanted_unit(original, unit), reply) {
                    Err(message) => Err(message),
                    Ok(conversion) => Ok(
                        ExportModel {
                            channels: model.channels.push(
                                ChannelModel {
                                    name: target,
                                    unit: wanted_unit(original, unit),
                                    unit_source: if unit.len() == 0 {
                                        original.unit_source
                                    } else {
                                        UnitSource::Declared
                                    },
                                    sample_type: if conversion.changes_nothing() {
                                        original.sample_type
                                    } else {
                                        SampleType::F64
                                    },
                                    ..original
                                },
                            ),
                            exports: model.exports.push(
                                ExportChannel { inputs: ExportInputs::Direct(index), conversion },
                            ),
                        },
                    ),
                }
            }
        },
    }
}

/// The projection that mappings make.
pub open spec fn mapped(
    source: Seq<SourceChannel>,
    rows: Seq<Vec<String>>,
    replies: Seq<UnitReply>,
) -> Result<ExportModel, Seq<char>>
    decreases rows.len(),
{
    if rows.len() == 0 {
        Ok(ExportModel { channels: Seq::empty(), exports: Seq::empty() })
    } else {
        match mapped(source, rows.drop_last(), replies) {
            Err(message) => Err(message),
            Ok(model) => with_mapping(model, source, rows.last()@, replies[rows.len() - 1]),
        }
    }
}

/// Whether a mapping has the channel as its source.
pub open spec fn is_mapped(source: Seq<SourceChannel>, rows: Seq<Vec<String>>, index: int) -> bool {
    exists|i: int|
        0 <= i < rows.len() && first_named(source, (#[trigger] rows[i])@[0]@, 0) == Some(
            index as usize,
        )
}

/// A projection with the first `count` channels of the source that no mapping has and that are
/// not excluded, as they are.
pub open spec fn with_unmapped(
    model: ExportModel,
    source: Seq<SourceChannel>,
    rows: Seq<Vec<String>>,
    excluded: Seq<Seq<char>>,
    count: int,
) -> Result<ExportModel, Seq<char>>
    decreases count,
{
    if count <= 0 {
        Ok(model)
    } else {
        let original = source[count - 1]@;
        match with_unmapped(model, source, rows, excluded, count - 1) {
            Err(message) => Err(message),
            Ok(before) => if is_mapped(source, rows, count - 1) || has_name(
                excluded,
                lower(original.name),
            ) {
                Ok(before)
            } else if name_taken(before.channels, original.name) {
                Err(duplicate_target(original.name))
            } else {
                Ok(
                    ExportModel {
                        channels: before.channels.push(original),
                        exports: before.exports.push(
                            ExportChannel {
                                inputs: ExportInputs::Direct((count - 1) as usize),
                                conversion: identity(),
                            },
                        ),
                    },
                )
            },
        }
    }
}

/// Whether two channels have their samples at the same times.
pub open spec fn same_clock(a: ChannelModel, b: ChannelModel) -> bool {
    &&& a.chunks.len() == b.chunks.len()
    &&& a.sample_count == b.sample_count
    &&& forall|i: int|
        0 <= i < a.chunks.len() ==> same_times(#[trigger] a.chunks[i], b.chunks[i])
}

/// Whether two chunks have their samples at the same times.
pub open spec fn same_times(a: SourceChunk, b: SourceChunk) -> bool {
    &&& a.sample_period_ns == b.sample_period_ns
    &&& a.sample_count == b.sample_count
    &&& a.time_base_ns == b.time_base_ns
}

/// A projection with one more sum: two sources, target name, target unit.
pub open spec fn with_sum(
    model: ExportModel,
    source: Seq<SourceChannel>,
    row: Seq<String>,
    reply: SumReply,
) -> Result<ExportModel, Seq<char>> {
    let target = trim(row[2]@);
    let unit = trim(row[3]@);
    match (first_named(source, row[0]@, 0), first_named(source, row[1]@, 0)) {
        (None, _) => Err(unknown_channel(row[0]@)),
        (Some(_), None) => Err(unknown_channel(row[1]@)),
        (Some(l), Some(r)) => {
            let left = source[l as int]@;
            let right = source[r as int]@;
            if !same_clock(left, right) {
                Err("cannot sum "@ + row[0]@ + " and "@ + row[1]@ + ": sample clocks differ"@)
            } else if !summable(
                left.unit,
                right.unit,
                optional_text(reply.left),
                optional_text(reply.right),
            ) {
                Err(
                    "cannot sum "@ + row[0]@ + " ["@ + left.unit + "] and "@ + row[1]@ + " ["@
                        + right.unit + "]: units differ"@,
                )
            } else if target.len() == 0 || unit.len() == 0 {
                Err("sum_channels target name and unit cannot be empty"@)
            } else if name_taken(model.channels, target) {
                Err(duplicate_target(target))
            } else {
                match conversion_of(left.unit, unit, reply.target) {
                    Err(message) => Err(message),
                    Ok(conversion) => Ok(
                        ExportModel {
                            channels: model.channels.push(
                                ChannelModel {
                                    name: target,
                                    unit,
                                    unit_source: UnitSource::Declared,
                                    sample_type: SampleType::F64,
                                    ..left
                                },
                            ),
                            exports: model.exports.push(
                                ExportChannel { inputs: ExportInputs::Sum(l, r), conversion },
                            ),
                        },
                    ),
                }
            }
        },
    }
}

/// A projection with sums.
pub open spec fn with_sums(
    model: ExportModel,
    source: Seq<SourceChannel>,
    rows: Seq<Vec<String>>,
    replies: Seq<SumReply>,
) -> Result<ExportModel, Seq<char>>
    decreases rows.len(),
{
    if rows.len() == 0 {
        Ok(model)
    } else {
        match with_sums(model, source, rows.drop_last(), replies) {
            Err(message) => Err(message),
            Ok(before) => with_sum(before, source, rows.last()@, replies[rows.len() - 1]),
        }
    }
}

/// The source as it is.
pub open spec fn untouched(source: Seq<SourceChannel>) -> ExportModel {
    ExportModel {
        channels: models_of(source),
        exports: Seq::new(
            source.len(),
            |i: int|
                ExportChannel {
                    inputs: ExportInputs::Direct(i as usize),
                    conversion: identity(),
                },
        ),
    }
}

/// The projection that is asked for: mappings, then channels without one, then sums. Where
/// nothing is asked for it is the source as it is.
pub open spec fn projection(
    source: Seq<SourceChannel>,
    mapping: Seq<Vec<String>>,
    sums: Seq<Vec<String>>,
    include_unmapped: bool,
    excluded: Seq<Seq<char>>,
    replies: Seq<UnitReply>,
    sum_replies: Seq<SumReply>,
) -> Result<ExportModel, Seq<char>> {
    if mapping.len() == 0 && sums.len() == 0 && excluded.len() == 0 {
        Ok(untouched(source))
    } else {
        match mapped(source, mapping, replies) {
            Err(message) => Err(message),
            Ok(model) => match with_unmapped(
                model,
                source,
                mapping,
                excluded,
                if include_unmapped {
                    source.len() as int
                } else {
                    0
                },
            ) {
                Err(message) => Err(message),
                Ok(model) => with_sums(model, source, sums, sum_replies),
            },
        }
    }
}

/// The question to the registry that a mapping raises: from which unit to which. Nothing is
/// asked of a channel that is not there.
pub open spec fn mapping_question(source: Seq<SourceChannel>, row: Seq<String>) -> (
    Seq<char>,
    Seq<char>,
) {
    match first_named(source, row[0]@, 0) {
        Some(index) => (
            source[index as int].unit@,
            wanted_unit(source[index as int]@, trim(row[2]@)),
        ),
        None => (Seq::empty(), Seq::empty()),
    }
}

/// The questions to the registry that a sum raises: the units of the two channels and the unit
/// that is wanted. Nothing is asked of channels that are not there.
pub open spec fn sum_question(source: Seq<SourceChannel>, row: Seq<String>) -> (
    Seq<char>,
    Seq<char>,
    Seq<char>,
) {
    match (first_named(source, row[0]@, 0), first_named(source, row[1]@, 0)) {
        (Some(l), Some(r)) => (
            source[l as int].unit@,
            source[r as int].unit@,
            trim(row[3]@),
        ),
        _ => (Seq::empty(), Seq::empty(), Seq::empty()),
    }
}

// ---------------------------------------------------------------------------------------
// Laws
// ---------------------------------------------------------------------------------------
/// Whether an exported channel has the samples of its inputs: these are channels of the source,
/// and their chunks are those of the exported channel.
pub open spec fn is_fed(
    channel: ChannelModel,
    export: ExportChannel,
    source: Seq<SourceChannel>,
) -> bool {
    match export.inputs {
        ExportInputs::Direct(i) => i < source.len() && channel.chunks == source[i as int].chunks@
            && channel.sample_count == source[i as int].sample_count,
        ExportInputs::Sum(l, r) => l < source.len() && r < source.len() && channel.chunks
            == source[l as int].chunks@ && channel.sample_count == source[l as int].sample_count
            && same_clock(source[l as int]@, source[r as int]@),
    }
}

/// Whether channels and the ways their samples come about stand side by side.
pub open spec fn is_aligned(model: ExportModel, source: Seq<SourceChannel>) -> bool {
    &&& model.channels.len() == model.exports.len()
    &&& forall|k: int|
        0 <= k < model.channels.len() ==> is_fed(
            #[trigger] model.channels[k],
            model.exports[k],
            source,
        )
}

/// Whether all names differ, whatever their case.
pub open spec fn names_differ(channels: Seq<ChannelModel>) -> bool {
    forall|i: int, j: int|
        0 <= i < j < channels.len() ==> lower((#[trigger] channels[i]).name) != lower(
            (#[trigger] channels[j]).name,
        )
}

/// Whether a converted channel is stored so that the conversion cannot truncate it.
pub open spec fn keeps_precision(model: ExportModel) -> bool {
    forall|k: int|
        0 <= k < model.exports.len() && !(#[trigger] model.exports[k]).conversion.changes_nothing()
            ==> model.channels[k].sample_type is F64
}

proof fn lemma_first_named(channels: Seq<SourceChannel>, name: Seq<char>, i: int)
    requires
        0 <= i,
        channels.len() <= usize::MAX,
    ensures
        first_named(channels, name, i) matches Some(k) ==> i <= k < channels.len() && lower(
            channels[k as int].name@,
        ) == lower(name),
    decreases channels.len() - i,
{
    if i < channels.len() && lower(channels[i].name@) != lower(name) {
        lemma_first_named(channels, name, i + 1);
    }
}

proof fn lemma_identity_changes_nothing()
    ensures
        identity().changes_nothing(),
{
}

proof fn lemma_pushed(
    model: ExportModel,
    channel: ChannelModel,
    export: ExportChannel,
    source: Seq<SourceChannel>,
)
    requires
        is_aligned(model, source),
        names_differ(model.channels),
        keeps_precision(model),
        is_fed(channel, export, source),
        !name_taken(model.channels, channel.name),
        export.conversion.changes_nothing() || channel.sample_type is F64,
    ensures
        ({
            let after = ExportModel {
                channels: model.channels.push(channel),
                exports: model.exports.push(export),
            };
            is_aligned(after, source) && names_differ(after.channels) && keeps_precision(after)
        }),
{
    let after = ExportModel {
        channels: model.channels.push(channel),
        exports: model.exports.push(export),
    };
    assert forall|k: int| 0 <= k < after.channels.len() implies is_fed(
        #[trigger] after.channels[k],
        after.exports[k],
        source,
    ) by {
        if k < model.channels.len() {
            assert(after.channels[k] == model.channels[k]);
        }
    }
    assert forall|i: int, j: int| 0 <= i < j < after.channels.len() implies lower(
        (#[trigger] after.channels[i]).name,
    ) != lower((#[trigger] after.channels[j]).name) by {
        assert(after.channels[i] == model.channels[i]);
        if j < model.channels.len() {
            assert(after.channels[j] == model.channels[j]);
        }
    }
    assert forall|k: int|
        0 <= k < after.exports.len() && !(
        #[trigger] after.exports[k]).conversion.changes_nothing() implies after.channels[k].sample_type is F64 by {
        if k < model.exports.len() {
            assert(after.exports[k] == model.exports[k]);
            assert(after.channels[k] == model.channels[k]);
        }
    }
}

proof fn lemma_mapped(source: Seq<SourceChannel>, rows: Seq<Vec<String>>, replies: Seq<UnitReply>)
    requires
        source.len() <= usize::MAX,
    ensures
        mapped(source, rows, replies) matches Ok(model) ==> is_aligned(model, source)
            && names_differ(model.channels) && keeps_precision(model),
    decreases rows.len(),
{
    if rows.len() > 0 {
        lemma_mapped(source, rows.drop_last(), replies);
        if let Ok(model) = mapped(source, rows, replies) {
            let before = mapped(source, rows.drop_last(), replies)->Ok_0;
            lemma_first_named(source, rows.last()@[0]@, 0);
            lemma_identity_changes_nothing();
            let channel = model.channels.last();
            let export = model.exports.last();
            assert(model.channels == before.channels.push(channel));
            assert(model.exports == before.exports.push(export));
            lemma_pushed(before, channel, export, source);
        }
    }
}

proof fn lemma_with_unmapped(
    model: ExportModel,
    source: Seq<SourceChannel>,
    rows: Seq<Vec<String>>,
    excluded: Seq<Seq<char>>,
    count: int,
)
    requires
        source.len() <= usize::MAX,
        count <= source.len(),
        is_aligned(model, source),
        names_differ(model.channels),
        keeps_precision(model),
    ensures
        with_unmapped(model, source, rows, excluded, count) matches Ok(after) ==> is_aligned(
            after,
            source,
        ) && names_differ(after.channels) && keeps_precision(after),
    decreases count,
{
    if count > 0 {
        lemma_with_unmapped(model, source, rows, excluded, count - 1);
        if let Ok(after) = with_unmapped(model, source, rows, excluded, count) {
            let before = with_unmapped(model, source, rows, excluded, count - 1)->Ok_0;
            let original = source[count - 1]@;
            if !(is_mapped(source, rows, count - 1) || has_name(excluded, lower(original.name))) {
                lemma_identity_changes_nothing();
                lemma_pushed(
                    before,
                    original,
                    ExportChannel {
                        inputs: ExportInputs::Direct((count - 1) as usize),
                        conversion: identity(),
                    },
                    source,
                );
            }
        }
    }
}

proof fn lemma_with_sums(
    model: ExportModel,
    source: Seq<SourceChannel>,
    rows: Seq<Vec<String>>,
    replies: Seq<SumReply>,
)
    requires
        source.len() <= usize::MAX,
        is_aligned(model, source),
        names_differ(model.channels),
        keeps_precision(model),
    ensures
        with_sums(model, source, rows, replies) matches Ok(after) ==> is_aligned(after, source)
            && names_differ(after.channels) && keeps_precision(after),
    decreases rows.len(),
{
    if rows.len() > 0 {
        lemma_with_sums(model, source, rows.drop_last(), replies);
        if let Ok(after) = with_sums(model, source, rows, replies) {
            let before = with_sums(model, source, rows.drop_last(), replies)->Ok_0;
            lemma_first_named(source, rows.last()@[0]@, 0);
            lemma_first_named(source, rows.last()@[1]@, 0);
            let channel = after.channels.last();
            let export = after.exports.last();
            assert(after.channels == before.channels.push(channel));
            assert(after.exports == before.exports.push(export));
            lemma_pushed(before, channel, export, source);
        }
    }
}

/// Channels and the ways their samples come about never drift apart: there is one for each, its
/// inputs are channels of the source with the same chunks, the two of a sum have the same
/// clock, and a channel whose values change is stored without loss.
pub proof fn law_channels_and_exports_are_aligned(
    source: Seq<SourceChannel>,
    mapping: Seq<Vec<String>>,
    sums: Seq<Vec<String>>,
    include_unmapped: bool,
    excluded: Seq<Seq<char>>,
    replies: Seq<UnitReply>,
    sum_replies: Seq<SumReply>,
)
    requires
        source.len() <= usize::MAX,
    ensures
        projection(source, mapping, sums, include_unmapped, excluded, replies, sum_replies)
            matches Ok(model) ==> is_aligned(model, source) && keeps_precision(model),
{
    lemma_mapped(source, mapping, replies);
    lemma_identity_changes_nothing();
    if mapping.len() == 0 && sums.len() == 0 && excluded.len() == 0 {
        let model = untouched(source);
        assert forall|k: int| 0 <= k < model.channels.len() implies is_fed(
            #[trigger] model.channels[k],
            model.exports[k],
            source,
        ) by {}
    } else if let Ok(model) = mapped(source, mapping, replies) {
        let count = if include_unmapped {
            source.len() as int
        } else {
            0
        };
        lemma_with_unmapped(model, source, mapping, excluded, count);
        if let Ok(model) = with_unmapped(model, source, mapping, excluded, count) {
            lemma_with_sums(model, source, sums, sum_replies);
        }
    }
}

/// A projection that was asked for has no two channels with the same name, whatever its case.
pub proof fn law_export_names_differ(
    source: Seq<SourceChannel>,
    mapping: Seq<Vec<String>>,
    sums: Seq<Vec<String>>,
    include_unmapped: bool,
    excluded: Seq<Seq<char>>,
    replies: Seq<UnitReply>,
    sum_replies: Seq<SumReply>,
)
    requires
        source.len() <= usize::MAX,
        mapping.len() > 0 || sums.len() > 0 || excluded.len() > 0,
    ensures
        projection(source, mapping, sums, include_unmapped, excluded, replies, sum_replies)
            matches Ok(model) ==> names_differ(model.channels),
{
    lemma_mapped(source, mapping, replies);
    if let Ok(model) = mapped(source, mapping, replies) {
        let count = if include_unmapped {
            source.len() as int
        } else {
            0
        };
        lemma_with_unmapped(model, source, mapping, excluded, count);
        if let Ok(model) = with_unmapped(model, source, mapping, excluded, count) {
            lemma_with_sums(model, source, sums, sum_replies);
        }
    }
}

/// Units that the registry does not know are refused unless they are spelled alike: there is no
/// conversion between them but the one that the registry itself gives, and no sum of them.
pub proof fn law_unknown_units_are_refused(
    a: Seq<char>,
    b: Seq<char>,
    reply: UnitReply,
    known: Option<Seq<char>>,
)
    requires
        lower(a) != lower(b),
        reply.from is None || reply.to is None,
    ensures
        conversion_of(a, b, reply) == (match reply.conversion {
            Ok(conversion) => Ok::<Affine, Seq<char>>(conversion),
            Err(message) => Err::<Affine, Seq<char>>(message@),
        }),
        !summable(a, b, None, known),
        !summable(a, b, known, None),
{
}

proof fn lemma_mapped_error(
    source: Seq<SourceChannel>,
    rows: Seq<Vec<String>>,
    replies: Seq<UnitReply>,
    k: int,
)
    requires
        0 <= k <= rows.len(),
        mapped(source, rows.take(k), replies) is Err,
    ensures
        mapped(source, rows, replies) == mapped(source, rows.take(k), replies),
    decreases rows.len() - k,
{
    if k < rows.len() {
        assert(rows.take(k + 1).drop_last() =~= rows.take(k));
        lemma_mapped_error(source, rows, replies, k + 1);
    } else {
        assert(rows.take(k) =~= rows);
    }
}

proof fn lemma_unmapped_error(
    model: ExportModel,
    source: Seq<SourceChannel>,
    rows: Seq<Vec<String>>,
    excluded: Seq<Seq<char>>,
    k: int,
    count: int,
)
    requires
        0 <= k <= count,
        with_unmapped(model, source, rows, excluded, k) is Err,
    ensures
        with_unmapped(model, source, rows, excluded, count) == with_unmapped(
            model,
            source,
            rows,
            excluded,
            k,
        ),
    decreases count - k,
{
    if k < count {
        lemma_unmapped_error(model, source, rows, excluded, k + 1, count);
    }
}

proof fn lemma_sums_error(
    model: ExportModel,
    source: Seq<SourceChannel>,
    rows: Seq<Vec<String>>,
    replies: Seq<SumReply>,
    k: int,
)
    requires
        0 <= k <= rows.len(),
        with_sums(model, source, rows.take(k), replies) is Err,
    ensures
        with_sums(model, source, rows, replies) == with_sums(
            model,
            source,
            rows.take(k),
            replies,
        ),
    decreases rows.len() - k,
{
    if k < rows.len() {
        assert(rows.take(k + 1).drop_last() =~= rows.take(k));
        lemma_sums_error(model, source, rows, replies, k + 1);
    } else {
        assert(rows.take(k) =~= rows);
    }
}

// ---------------------------------------------------------------------------------------
// Building a projection
// ---------------------------------------------------------------------------------------
/// Whether two canonical spellings are both there or both absent, and equal.
fn same_spelling(a: &Option<String>, b: &Option<String>) -> (same: bool)
    ensures
        same == (optional_text(*a) == optional_text(*b)),
{
    match (a, b) {
        (Some(a), Some(b)) => *a.as_str() == *b.as_str(),
        (None, None) => true,
        _ => false,
    }
}

/// Whether two units are the same.
fn is_same_unit(a: &str, b: &str, known_a: &Option<String>, known_b: &Option<String>) -> (same:
    bool)
    ensures
        same == same_unit(a@, b@, optional_text(*known_a), optional_text(*known_b)),
{
    same_ignoring_case(a, b) || (known_a.is_some() && same_spelling(known_a, known_b))
}

/// The conversion between two units, given what the registry says of them.
pub fn affine_conversion(from: &str, to: &str, reply: &UnitReply) -> (conversion: Result<
    Affine,
    String,
>)
    ensures
        match conversion {
            Ok(conversion) => conversion_of(from@, to@, *reply) == Ok::<Affine, Seq<char>>(
                conversion,
            ),
            Err(message) => conversion_of(from@, to@, *reply) == Err::<Affine, Seq<char>>(
                message@,
            ),
        },
{
    if is_same_unit(from, to, &reply.from, &reply.to) {
        return Ok(Affine { scale: ONE, offset: ZERO });
    }
    match &reply.conversion {
        Ok(conversion) => Ok(*conversion),
        Err(message) => Err(message.clone()),
    }
}

/// The first channel with a name.
fn find_channel(channels: &Vec<SourceChannel>, name: &str) -> (found: Option<usize>)
    ensures
        found == first_named(channels@, name@, 0),
        found matches Some(i) ==> i < channels@.len(),
{
    let key = to_lower(name);
    let mut i: usize = 0;
    while i < channels.len()
        invariant
            i <= channels@.len(),
            key@ == lower(name@),
            first_named(channels@, name@, 0) == first_named(channels@, name@, i as int),
        decreases channels@.len() - i,
    {
        if to_lower(channels[i].name.as_str()) == key {
            return Some(i);
        }
        i = i + 1;
    }
    None
}

/// Whether a target has a name already.
fn is_name_taken(channels: &Vec<SourceChannel>, name: &str) -> (taken: bool)
    ensures
        taken == name_taken(models_of(channels@), name@),
{
    let key = to_lower(name);
    let mut i: usize = 0;
    while i < channels.len()
        invariant
            i <= channels@.len(),
            key@ == lower(name@),
            forall|k: int|
                0 <= k < i ==> lower((#[trigger] models_of(channels@)[k]).name) != lower(name@),
        decreases channels@.len() - i,
    {
        if to_lower(channels[i].name.as_str()) == key {
            assert(lower(models_of(channels@)[i as int].name) == lower(name@));
            return true;
        }
        i = i + 1;
    }
    false
}

/// Two texts one after the other.
fn concat(a: &str, b: &str) -> (text: String)
    ensures
        text@ == a@ + b@,
{
    let mut text = a.to_owned();
    text.append(b);
    text
}

/// Whether a mapping has the channel as its source.
fn has_mapping(source: &Vec<SourceChannel>, rows: &Vec<Vec<String>>, index: usize) -> (found: bool)
    requires
        forall|i: int| 0 <= i < rows@.len() ==> (#[trigger] rows@[i])@.len() >= 3,
    ensures
        found == is_mapped(source@, rows@, index as int),
{
    let mut i: usize = 0;
    while i < rows.len()
        invariant
            i <= rows@.len(),
            forall|i: int| 0 <= i < rows@.len() ==> (#[trigger] rows@[i])@.len() >= 3,
            forall|k: int|
                0 <= k < i ==> first_named(source@, (#[trigger] rows@[k])@[0]@, 0) != Some(index),
        decreases rows@.len() - i,
    {
        assert(rows@[i as int]@.len() >= 3);
        if find_channel(source, rows[i][0].as_str()) == Some(index) {
            assert(first_named(source@, rows@[i as int]@[0]@, 0) == Some(index));
            return true;
        }
        i = i + 1;
    }
    false
}

/// Whether two channels have their samples at the same times.
fn clocks_agree(a: &SourceChannel, b: &SourceChannel) -> (agree: bool)
    ensures
        agree == same_clock(a@, b@),
{
    if a.chunks.len() != b.chunks.len() || a.sample_count != b.sample_count {
        return false;
    }
    let mut i: usize = 0;
    while i < a.chunks.len()
        invariant
            i <= a.chunks@.len(),
            a.chunks@.len() == b.chunks@.len(),
            forall|k: int|
                0 <= k < i ==> same_times(#[trigger] a@.chunks[k], b@.chunks[k]),
        decreases a.chunks@.len() - i,
    {
        if a.chunks[i].sample_period_ns != b.chunks[i].sample_period_ns || a.chunks[i].sample_count
            != b.chunks[i].sample_count || a.chunks[i].time_base_ns != b.chunks[i].time_base_ns {
            assert(!same_times(a@.chunks[i as int], b@.chunks[i as int]));
            return false;
        }
        i = i + 1;
    }
    true
}

impl ExportSource {
    /// Appends a channel.
    fn add_channel(&mut self, channel: SourceChannel, export: ExportChannel)
        ensures
            final(self)@ == (ExportModel {
                channels: old(self)@.channels.push(channel@),
                exports: old(self)@.exports.push(export),
            }),
    {
        let ghost before = self.channels@;
        self.channels.push(channel);
        self.exports.push(export);
        assert(models_of(self.channels@) =~= models_of(before).push(channel@));
    }

    /// Appends a mapping.
    fn map_channel(&mut self, source: &Vec<SourceChannel>, row: &Vec<String>, reply: &UnitReply)
        -> (added: Result<(), String>)
        requires
            row@.len() >= 3,
        ensures
            match added {
                Ok(_) => with_mapping(old(self)@, source@, row@, *reply) == Ok::<
                    ExportModel,
                    Seq<char>,
                >(final(self)@),
                Err(message) => with_mapping(old(self)@, source@, row@, *reply) == Err::<
                    ExportModel,
                    Seq<char>,
                >(message@),
            },
    {
        let index: usize = match find_channel(source, row[0].as_str()) {
            Some(index) => index,
            None => {
                return Err(concat("export source channel not found: ", row[0].as_str()));
            },
        };
        let original = &source[index];
        let target = trimmed(row[1].as_str());
        let unit = trimmed(row[2].as_str());
        if target.as_str().is_empty() {
            return Err(concat("empty target name for ", row[0].as_str()));
        }
        if is_name_taken(&self.channels, target.as_str()) {
            return Err(concat("duplicate export target channel: ", target.as_str()));
        }
        let own: bool = unit.as_str().is_empty();
        let wanted = if own {
            original.unit.clone()
        } else {
            unit
        };
        assert(wanted@ == wanted_unit(original@, trim(row@[2]@)));
        let conversion: Affine = match affine_conversion(
            original.unit.as_str(),
            wanted.as_str(),
            reply,
        ) {
            Ok(conversion) => conversion,
            Err(message) => return Err(message),
        };
        let mut channel = original.duplicate();
        channel.name = target;
        channel.unit = wanted;
        if !own {
            channel.unit_source = UnitSource::Declared;
        }
        if !conversion.is_identity() {
            channel.sample_type = SampleType::F64;
        }
        self.add_channel(channel, ExportChannel { inputs: ExportInputs::Direct(index), conversion });
        Ok(())
    }

    /// Appends a sum.
    fn add_sum(&mut self, source: &Vec<SourceChannel>, row: &Vec<String>, reply: &SumReply)
        -> (added: Result<(), String>)
        requires
            row@.len() >= 4,
        ensures
            match added {
                Ok(_) => with_sum(old(self)@, source@, row@, *reply) == Ok::<
                    ExportModel,
                    Seq<char>,
                >(final(self)@),
                Err(message) => with_sum(old(self)@, source@, row@, *reply) == Err::<
                    ExportModel,
                    Seq<char>,
                >(message@),
            },
    {
        let l: usize = match find_channel(source, row[0].as_str()) {
            Some(index) => index,
            None => {
                return Err(concat("export source channel not found: ", row[0].as_str()));
            },
        };
        let r: usize = match find_channel(source, row[1].as_str()) {
            Some(index) => index,
            None => {
                return Err(concat("export source channel not found: ", row[1].as_str()));
            },
        };
        let left = &source[l];
        let right = &source[r];
        if !clocks_agree(left, right) {
            let mut message = concat("cannot sum ", row[0].as_str());
            message.append(" and ");
            message.append(row[1].as_str());
            message.append(": sample clocks differ");
            return Err(message);
        }
        if !is_same_unit(left.unit.as_str(), right.unit.as_str(), &reply.left, &reply.right)
            || !same_spelling(&reply.left, &reply.right) {
            let mut message = concat("cannot sum ", row[0].as_str());
            message.append(" [");
            message.append(left.unit.as_str());
            message.append("] and ");
            message.append(row[1].as_str());
            message.append(" [");
            message.append(right.unit.as_str());
            message.append("]: units differ");
            return Err(message);
        }
        let target = trimmed(row[2].as_str());
        let unit = trimmed(row[3].as_str());
        if target.as_str().is_empty() || unit.as_str().is_empty() {
            return Err("sum_channels target name and unit cannot be empty".to_owned());
        }
        if is_name_taken(&self.channels, target.as_str()) {
            return Err(concat("duplicate export target channel: ", target.as_str()));
        }
        let conversion: Affine = match affine_conversion(
            left.unit.as_str(),
            unit.as_str(),
            &reply.target,
        ) {
            Ok(conversion) => conversion,
            Err(message) => return Err(message),
        };
        let mut channel = left.duplicate();
        channel.name = target;
        channel.unit = unit;
        channel.unit_source = UnitSource::Declared;
        channel.sample_type = SampleType::F64;
        self.add_channel(channel, ExportChannel { inputs: ExportInputs::Sum(l, r), conversion });
        Ok(())
    }

    /// The source as it is.
    fn unchanged(source: &Vec<SourceChannel>) -> (exported: ExportSource)
        ensures
            exported@ == untouched(source@),
    {
        let mut exported = ExportSource { channels: Vec::new(), exports: Vec::new() };
        let mut i: usize = 0;
        assert(exported@ =~= untouched(source@.take(0)));
        while i < source.len()
            invariant
                i <= source@.len(),
                exported@ == untouched(source@.take(i as int)),
            decreases source@.len() - i,
        {
            exported.add_channel(
                source[i].duplicate(),
                ExportChannel {
                    inputs: ExportInputs::Direct(i),
                    conversion: Affine { scale: ONE, offset: ZERO },
                },
            );
            assert(exported@ =~= untouched(source@.take(i + 1)));
            i = i + 1;
        }
        assert(source@.take(i as int) =~= source@);
        exported
    }

    /// The projection that is asked for, given what the registry says of the questions that
    /// mappings and sums raise.
    pub fn new(
        source: &Vec<SourceChannel>,
        mapping: &Vec<Vec<String>>,
        sums: &Vec<Vec<String>>,
        include_unmapped: bool,
        exclude_channels: &Vec<String>,
        replies: &Vec<UnitReply>,
        sum_replies: &Vec<SumReply>,
    ) -> (exported: Result<ExportSource, String>)
        requires
            forall|i: int| 0 <= i < mapping@.len() ==> (#[trigger] mapping@[i])@.len() >= 3,
            forall|i: int| 0 <= i < sums@.len() ==> (#[trigger] sums@[i])@.len() >= 4,
            replies@.len() == mapping@.len(),
            sum_replies@.len() == sums@.len(),
        ensures
            ({
                let wanted = projection(
                    source@,
                    mapping@,
                    sums@,
                    include_unmapped,
                    texts(exclude_channels@),
                    replies@,
                    sum_replies@,
                );
                match exported {
                    Ok(exported) => wanted == Ok::<ExportModel, Seq<char>>(exported@)
                        && is_aligned(exported@, source@),
                    Err(message) => wanted == Err::<ExportModel, Seq<char>>(message@),
                }
            }),
    {
        proof {
            assert(source.len() == source@.len());
            law_channels_and_exports_are_aligned(
                source@,
                mapping@,
                sums@,
                include_unmapped,
                texts(exclude_channels@),
                replies@,
                sum_replies@,
            );
        }
        if mapping.len() == 0 && sums.len() == 0 && exclude_channels.len() == 0 {
            return Ok(Self::unchanged(source));
        }
        let mut exported = ExportSource { channels: Vec::new(), exports: Vec::new() };
        let mut i: usize = 0;
        assert(mapping@.take(0) =~= Seq::empty());
        assert(exported@.channels =~= Seq::empty());
        assert(exported@.exports =~= Seq::empty());
        while i < mapping.len()
            invariant
                i <= mapping@.len(),
                mapping@.len() > 0 || sums@.len() > 0 || exclude_channels@.len() > 0,
                forall|i: int| 0 <= i < mapping@.len() ==> (#[trigger] mapping@[i])@.len() >= 3,
                replies@.len() == mapping@.len(),
                mapped(source@, mapping@.take(i as int), replies@) == Ok::<
                    ExportModel,
                    Seq<char>,
                >(exported@),
            decreases mapping@.len() - i,
        {
            assert(mapping@.take(i + 1).drop_last() =~= mapping@.take(i as int));
            assert(mapping@[i as int]@.len() >= 3);
            match exported.map_channel(source, &mapping[i], &replies[i]) {
                Ok(_) => {},
                Err(message) => {
                    proof {
                        lemma_mapped_error(source@, mapping@, replies@, i + 1);
                    }
                    return Err(message);
                },
            }
            i = i + 1;
        }
        assert(mapping@.take(i as int) =~= mapping@);
        let ghost base = exported@;
        let count: usize = if include_unmapped {
            source.len()
        } else {
            0
        };
        let mut k: usize = 0;
        while k < count
            invariant
                k <= count,
                count == (if include_unmapped {
                    source@.len()
                } else {
                    0
                }),
                mapping@.len() > 0 || sums@.len() > 0 || exclude_channels@.len() > 0,
                forall|i: int| 0 <= i < mapping@.len() ==> (#[trigger] mapping@[i])@.len() >= 3,
                mapped(source@, mapping@, replies@) == Ok::<ExportModel, Seq<char>>(base),
                with_unmapped(
                    base,
                    source@,
                    mapping@,
                    texts(exclude_channels@),
                    k as int,
                ) == Ok::<ExportModel, Seq<char>>(exported@),
            decreases count - k,
        {
            let original = &source[k];
            let key = to_lower(original.name.as_str());
            if !has_mapping(source, mapping, k) && !holds_ignoring_case(
                exclude_channels,
                key.as_str(),
            ) {
                if is_name_taken(&exported.channels, original.name.as_str()) {
                    let message = concat(
                        "duplicate export target channel: ",
                        original.name.as_str(),
                    );
                    proof {
                        lemma_unmapped_error(
                            base,
                            source@,
                            mapping@,
                            texts(exclude_channels@),
                            k + 1,
                            count as int,
                        );
                    }
                    return Err(message);
                }
                exported.add_channel(
                    original.duplicate(),
                    ExportChannel {
                        inputs: ExportInputs::Direct(k),
                        conversion: Affine { scale: ONE, offset: ZERO },
                    },
                );
            }
            k = k + 1;
        }
        let ghost middle = exported@;
        let mut s: usize = 0;
        assert(sums@.take(0) =~= Seq::empty());
        while s < sums.len()
            invariant
                s <= sums@.len(),
                count == (if include_unmapped {
                    source@.len()
                } else {
                    0
                }),
                mapping@.len() > 0 || sums@.len() > 0 || exclude_channels@.len() > 0,
                forall|i: int| 0 <= i < sums@.len() ==> (#[trigger] sums@[i])@.len() >= 4,
                sum_replies@.len() == sums@.len(),
                mapped(source@, mapping@, replies@) == Ok::<ExportModel, Seq<char>>(base),
                with_unmapped(
                    base,
                    source@,
                    mapping@,
                    texts(exclude_channels@),
                    count as int,
                ) == Ok::<ExportModel, Seq<char>>(middle),
                with_sums(middle, source@, sums@.take(s as int), sum_replies@) == Ok::<
                    ExportModel,
                    Seq<char>,
                >(exported@),
            decreases sums@.len() - s,
        {
            assert(sums@.take(s + 1).drop_last() =~= sums@.take(s as int));
            assert(sums@[s as int]@.len() >= 4);
            match exported.add_sum(source, &sums[s], &sum_replies[s]) {
                Ok(_) => {},
                Err(message) => {
                    proof {
                        lemma_sums_error(middle, source@, sums@, sum_replies@, s + 1);
                    }
                    return Err(message);
                },
            }
            s = s + 1;
        }
        assert(sums@.take(s as int) =~= sums@);
        Ok(exported)
    }
}

/// The questions to the registry that mappings raise: from which unit to which.
pub fn mapping_questions(source: &Vec<SourceChannel>, mapping: &Vec<Vec<String>>) -> (questions:
    Vec<(String, String)>)
    requires
        forall|i: int| 0 <= i < mapping@.len() ==> (#[trigger] mapping@[i])@.len() >= 3,
    ensures
        questions@.len() == mapping@.len(),
        forall|i: int|
            0 <= i < mapping@.len() ==> (
            (#[trigger] questions@[i]).0@,
            questions@[i].1@,
        ) == mapping_question(source@, mapping@[i]@),
{
    let mut questions: Vec<(String, String)> = Vec::new();
    let mut i: usize = 0;
    while i < mapping.len()
        invariant
            i <= mapping@.len(),
            questions@.len() == i,
            forall|i: int| 0 <= i < mapping@.len() ==> (#[trigger] mapping@[i])@.len() >= 3,
            forall|k: int|
                0 <= k < i ==> ((#[trigger] questions@[k]).0@, questions@[k].1@)
                    == mapping_question(source@, mapping@[k]@),
        decreases mapping@.len() - i,
    {
        let row = &mapping[i];
        assert(mapping@[i as int]@.len() >= 3);
        let question: (String, String) = match find_channel(source, row[0].as_str()) {
            Some(index) => {
                let unit = trimmed(row[2].as_str());
                if unit.as_str().is_empty() {
                    (source[index].unit.clone(), source[index].unit.clone())
                } else {
                    (source[index].unit.clone(), unit)
                }
            },
            None => (String::new(), String::new()),
        };
        assert((question.0@, question.1@) == mapping_question(source@, row@)) by {
            if first_named(source@, row@[0]@, 0) is None {
                assert(question.0@ =~= Seq::empty());
            }
        }
        questions.push(question);
        i = i + 1;
    }
    questions
}

/// The questions to the registry that sums raise: the units of the two channels and the unit
/// that is wanted.
pub fn sum_questions(source: &Vec<SourceChannel>, sums: &Vec<Vec<String>>) -> (questions: Vec<
    (String, String, String),
>)
    requires
        forall|i: int| 0 <= i < sums@.len() ==> (#[trigger] sums@[i])@.len() >= 4,
    ensures
        questions@.len() == sums@.len(),
        forall|i: int|
            0 <= i < sums@.len() ==> (
            (#[trigger] questions@[i]).0@,
            questions@[i].1@,
            questions@[i].2@,
        ) == sum_question(source@, sums@[i]@),
{
    let mut questions: Vec<(String, String, String)> = Vec::new();
    let mut i: usize = 0;
    while i < sums.len()
        invariant
            i <= sums@.len(),
            questions@.len() == i,
            forall|i: int| 0 <= i < sums@.len() ==> (#[trigger] sums@[i])@.len() >= 4,
            forall|k: int|
                0 <= k < i ==> (
                (#[trigger] questions@[k]).0@,
                questions@[k].1@,
                questions@[k].2@,
            ) == sum_question(source@, sums@[k]@),
        decreases sums@.len() - i,
    {
        let row = &sums[i];
        assert(sums@[i as int]@.len() >= 4);
        let left = find_channel(source, row[0].as_str());
        let right = find_channel(source, row[1].as_str());
        let question: (String, String, String) = match (left, right) {
            (Some(l), Some(r)) => (
                source[l].unit.clone(),
                source[r].unit.clone(),
                trimmed(row[3].as_str()),
            ),
            _ => (String::new(), String::new(), String::new()),
        };
        assert((question.0@, question.1@, question.2@) == sum_question(source@, row@)) by {
            if left is None || right is None {
                assert(question.0@ =~= Seq::empty());
            }
        }
        questions.push(question);
        i = i + 1;
    }
    questions
}

// ---------------------------------------------------------------------------------------
// Where to, and what is reported
// ---------------------------------------------------------------------------------------
/// The format that is asked for: the one named, or the one of the file's extension.
pub open spec fn requested_format(format: Option<Seq<char>>, extension: Option<Seq<char>>) -> Seq<
    char,
> {
    match format {
        Some(format) => format,
        None => match extension {
            Some(extension) => if lower(extension) == "pds"@ {
                "pds"@
            } else if lower(extension) == "vbo"@ {
                "vbo"@
            } else {
                "motec"@
            },
            None => "motec"@,
        },
    }
}

/// Checks that the format that is asked for can be written.
pub fn check_output_format(format: Option<&str>, extension: Option<&str>) -> (checked: Result<
    (),
    String,
>)
    ensures
        ({
            let wanted = requested_format(
                match format {
                    Some(format) => Some(format@),
                    None => None,
                },
                match extension {
                    Some(extension) => Some(extension@),
                    None => None,
                },
            );
            let known = lower(wanted) == "motec"@ || lower(wanted) == "ld"@;
            match checked {
                Ok(_) => known,
                Err(message) => !known && message@
                    == "write_telemetry currently supports format 'motec' only, got '"@ + wanted
                    + "'"@,
            }
        }),
{
    let wanted: String = match format {
        Some(format) => format.to_owned(),
        None => match extension {
            Some(extension) => {
                let extension = to_lower(extension);
                if *extension.as_str() == *"pds" {
                    "pds".to_owned()
                } else if *extension.as_str() == *"vbo" {
                    "vbo".to_owned()
                } else {
                    "motec".to_owned()
                }
            },
            None => "motec".to_owned(),
        },
    };
    let lowered = to_lower(wanted.as_str());
    if *lowered.as_str() == *"motec" || *lowered.as_str() == *"ld" {
        return Ok(());
    }
    let mut message = "write_telemetry currently supports format 'motec' only, got '".to_owned();
    message.append(wanted.as_str());
    message.append("'");
    Err(message)
}

/// Checks that there is one file to be written.
pub fn check_single_file(files: usize, pattern: &str) -> (checked: Result<(), String>)
    ensures
        match checked {
            Ok(_) => files == 1,
            Err(message) => files != 1 && message@ == "write_telemetry writes one file at a time but "@
                + crate::text::decimal(files as nat) + " matched "@ + pattern@,
        },
{
    if files == 1 {
        return Ok(());
    }
    let mut message = "write_telemetry writes one file at a time but ".to_owned();
    let count = crate::text::decimal_text(files as u64);
    message.append(count.as_str());
    message.append(" matched ");
    message.append(pattern);
    Err(message)
}

/// The number of channels with samples.
pub open spec fn sampled_channels(channels: Seq<SourceChannel>) -> nat
    decreases channels.len(),
{
    if channels.len() == 0 {
        0
    } else {
        sampled_channels(channels.drop_last()) + if channels.last().sample_count > 0 {
            1nat
        } else {
            0
        }
    }
}

/// The number of samples.
pub open spec fn total_samples(channels: Seq<SourceChannel>) -> nat
    decreases channels.len(),
{
    if channels.len() == 0 {
        0
    } else {
        total_samples(channels.drop_last()) + channels.last().sample_count as nat
    }
}

/// The number of channels with samples, and of samples where they can be counted.
pub fn count_written(channels: &Vec<SourceChannel>) -> (counts: (u64, Option<u64>))
    ensures
        counts.0 == sampled_channels(channels@),
        counts.1 == crate::samples::counted(total_samples(channels@)),
{
    let mut sampled: u64 = 0;
    let mut samples: Option<u64> = Some(0);
    let mut i: usize = 0;
    while i < channels.len()
        invariant
            i <= channels@.len(),
            sampled <= i,
            sampled == sampled_channels(channels@.take(i as int)),
            samples == crate::samples::counted(total_samples(channels@.take(i as int))),
        decreases channels@.len() - i,
    {
        assert(channels@.take(i + 1).drop_last() =~= channels@.take(i as int));
        if channels[i].sample_count > 0 {
            sampled = sampled + 1;
        }
        samples = match samples {
            Some(n) => n.checked_add(channels[i].sample_count),
            None => None,
        };
        i = i + 1;
    }
    assert(channels@.take(i as int) =~= channels@);
    (sampled, samples)
}

/// What was written, and where to.
#[derive(Debug)]
pub struct WriteReport {
    pub source: String,
    pub output: String,
    pub channels: u64,
    pub samples: u64,
    pub bytes: u64,
    pub sidecar: String,
    pub sidecar_bytes: u64,
}

/// What stands in a column of the row of a report.
pub open spec fn write_cell_of(report: WriteReport, column: u64) -> CellModel {
    if column == 0 {
        CellModel::Text(report.source@)
    } else if column == 1 {
        CellModel::Text(report.output@)
    } else if column == 2 {
        CellModel::Text("motec"@)
    } else if column == 3 {
        CellModel::Unsigned(report.channels)
    } else if column == 4 {
        CellModel::Unsigned(report.samples)
    } else if column == 5 {
        CellModel::Unsigned(report.bytes)
    } else if column == 6 {
        CellModel::Text(report.sidecar@)
    } else {
        CellModel::Unsigned(report.sidecar_bytes)
    }
}

/// What stands in a column of the row of a report.
pub fn write_cell(report: &WriteReport, column: u64) -> (cell: Cell)
    requires
        column < 8,
    ensures
        cell@ == write_cell_of(*report, column),
{
    match column {
        0 => text_cell(report.source.as_str()),
        1 => text_cell(report.output.as_str()),
        2 => text_cell("motec"),
        3 => Cell::Unsigned(report.channels),
        4 => Cell::Unsigned(report.samples),
        5 => Cell::Unsigned(report.bytes),
        6 => text_cell(report.sidecar.as_str()),
        _ => Cell::Unsigned(report.sidecar_bytes),
    }
}

} // verus!

//! The table of channels.
use crate::cell::{
    optional_text_cell, optional_unsigned_cell, text_cell, text_or_null, unsigned_or_null, Cell,
    CellModel,
};
use crate::channel_map::{mapped_name, mapped_unit, ChannelMap, Rule};
use crate::samples::{check_map, map_refusal, stated_rules};
use crate::source::{channel_names, channels_of, names_of, SourceChannel, SourceFile};
use crate::text::optional_text;
use vstd::prelude::*;

verus! {

/// What the registry of units knows of a channel's unit.
#[derive(Debug)]
pub struct RegisteredUnit {
    pub canonical: Option<String>,
    pub dimension: Option<String>,
}

/// The rows of one file, one for each channel.
pub open spec fn file_rows(file: int, channels: nat) -> Seq<(usize, usize)> {
    Seq::new(channels, |c: int| (file as usize, c as usize))
}

/// The rows of the files from the `file`-th on.
pub open spec fn rows_from(files: Seq<SourceFile>, file: int) -> Seq<(usize, usize)>
    decreases files.len() - file,
{
    if file < 0 || file >= files.len() {
        Seq::empty()
    } else {
        file_rows(file, files[file].channels@.len()) + rows_from(files, file + 1)
    }
}

/// There is a row for each channel of each file, and no other.
pub proof fn law_every_channel_has_a_row(
    files: Seq<SourceFile>,
    from: int,
    file: usize,
    channel: usize,
)
    requires
        files.len() <= usize::MAX,
        0 <= from,
    ensures
        rows_from(files, from).contains((file, channel)) <==> from <= file < files.len() && channel
            < files[file as int].channels@.len(),
    decreases files.len() - from,
{
    if from < files.len() {
        law_every_channel_has_a_row(files, from + 1, file, channel);
        assert(files[from].channels.len() == files[from].channels@.len());
        let own = file_rows(from, files[from].channels@.len());
        let rest = rows_from(files, from + 1);
        let all = rows_from(files, from);
        if all.contains((file, channel)) {
            let i = choose|i: int| 0 <= i < all.len() && all[i] == (file, channel);
            if i < own.len() {
                assert(own[i] == all[i]);
            } else {
                assert(rest[i - own.len()] == all[i]);
                assert(rest.contains((file, channel)));
            }
        }
        if file == from && channel < own.len() {
            assert(own[channel as int] == (file, channel));
            assert(all[channel as int] == (file, channel));
        }
        if rest.contains((file, channel)) {
            let i = choose|i: int| 0 <= i < rest.len() && rest[i] == (file, channel);
            assert(all[own.len() + i] == (file, channel));
        }
    }
}

/// The rows of the table: the places of files and of channels in them.
pub fn channel_rows(files: &Vec<SourceFile>) -> (rows: Vec<(usize, usize)>)
    ensures
        rows@ == rows_from(files@, 0),
{
    let mut rows: Vec<(usize, usize)> = Vec::new();
    let ghost all = rows_from(files@, 0);
    let mut file: usize = 0;
    assert(rows@ + all =~= all);
    while file < files.len()
        invariant
            file <= files@.len(),
            rows@ + rows_from(files@, file as int) == all,
        decreases files@.len() - file,
    {
        let count: usize = files[file].channels.len();
        let ghost before = rows@;
        let ghost own = file_rows(file as int, count as nat);
        let mut channel: usize = 0;
        assert(before + own.take(0) =~= before);
        while channel < count
            invariant
                channel <= count,
                own == file_rows(file as int, count as nat),
                rows@ == before + own.take(channel as int),
            decreases count - channel,
        {
            rows.push((file, channel));
            assert(rows@ =~= before + own.take(channel + 1));
            channel = channel + 1;
        }
        proof {
            let rest = rows_from(files@, file + 1);
            assert(own.take(channel as int) =~= own);
            assert(before + (own + rest) =~= rows@ + rest);
        }
        file = file + 1;
    }
    assert(rows@ =~= all);
    rows
}

/// Checks a `channel_map` argument against the channels of the files.
pub fn bind_channels(files: &Vec<SourceFile>, map: Result<ChannelMap, String>) -> (bound: Result<
    ChannelMap,
    String,
>)
    ensures
        ({
            let refusal = map_refusal(stated_rules(map), names_of(channels_of(files@)));
            match bound {
                Ok(rules) => refusal is None && map == Ok::<ChannelMap, String>(rules),
                Err(message) => refusal == Some(message@),
            }
        }),
{
    let available = channel_names(files);
    check_map(map, &available)
}

/// What stands in a column of the row of a channel; `ordinal` is the place of the row.
pub open spec fn channel_cell_of(
    file: SourceFile,
    channel: SourceChannel,
    rules: Seq<Rule>,
    registered: RegisteredUnit,
    column: u64,
    ordinal: usize,
) -> CellModel {
    let unit = mapped_unit(rules, channel.name@, channel.unit@, channel.unit_source);
    if column == 0 {
        CellModel::Text(file.path@)
    } else if column == 1 {
        CellModel::Text(file.format@)
    } else if column == 2 {
        CellModel::Unsigned32(channel.id)
    } else if column == 3 {
        CellModel::Text(mapped_name(rules, channel.name@))
    } else if column == 4 {
        CellModel::Text(unit.0)
    } else if column == 5 {
        CellModel::Text(unit.1.label())
    } else if column == 6 {
        text_or_null(optional_text(registered.canonical))
    } else if column == 7 {
        text_or_null(optional_text(registered.dimension))
    } else if column == 8 {
        CellModel::Unsigned32(channel.sample_type.type_code())
    } else if column == 9 {
        CellModel::Text(channel.sample_type.reported_name())
    } else if column == 10 {
        match channel.leading_period() {
            Some(period) => CellModel::Ratio { numerator: 1_000_000_000, denominator: period },
            None => CellModel::Null,
        }
    } else if column == 11 {
        unsigned_or_null(channel.leading_period())
    } else if column == 12 {
        CellModel::Unsigned(channel.sample_count)
    } else if column == 13 {
        CellModel::Unsigned(channel.chunks@.len() as u64)
    } else if column == 14 {
        CellModel::Unsigned(channel.duration_ns)
    } else {
        CellModel::Signed(ordinal as i64)
    }
}

/// What stands in a column of the row of a channel, given what the registry knows of the unit
/// that is reported for it.
pub fn channel_cell(
    file: &SourceFile,
    channel: &SourceChannel,
    map: &ChannelMap,
    registered: &RegisteredUnit,
    column: u64,
    ordinal: usize,
) -> (cell: Cell)
    ensures
        cell@ == channel_cell_of(*file, *channel, map@, *registered, column, ordinal),
{
    match column {
        0 => text_cell(file.path.as_str()),
        1 => text_cell(file.format.as_str()),
        2 => Cell::Unsigned32(channel.id),
        3 => text_cell(map.name_for(channel.name.as_str())),
        4 => {
            let (unit, _) = map.unit_for(
                channel.name.as_str(),
                channel.unit.as_str(),
                channel.unit_source,
            );
            Cell::Text(unit)
        },
        5 => {
            let (_, source) = map.unit_for(
                channel.name.as_str(),
                channel.unit.as_str(),
                channel.unit_source,
            );
            text_cell(source.name())
        },
        6 => optional_text_cell(&registered.canonical),
        7 => optional_text_cell(&registered.dimension),
        8 => Cell::Unsigned32(channel.sample_type.code()),
        9 => text_cell(channel.sample_type.name()),
        10 => match channel.first_period_ns() {
            Some(period) => Cell::Ratio { numerator: 1_000_000_000, denominator: period },
            None => Cell::Null,
        },
        11 => optional_unsigned_cell(channel.first_period_ns()),
        12 => Cell::Unsigned(channel.sample_count),
        13 => Cell::Unsigned(channel.chunks.len() as u64),
        14 => Cell::Unsigned(channel.duration_ns),
        _ => Cell::Signed(ordinal as i64),
    }
}

} // verus!

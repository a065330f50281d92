//! What holds of column comments.
use crate::channel_map::{mapped_name, mapped_unit, Rule};
use crate::comments::{
    all_quoted, columns_to_comment, comment_of, comments_for, escaped, has_column,
    law_doubled_marks_read_back, payload_of, qualified, quoted, read_back, rule_for_column,
    UnitInfo,
};
use crate::laws::lists::present;
use crate::laws::text::law_joined_parts_are_split_again;
use crate::source::{SourceChannel, UnitSource};
use crate::text::{join, lower};
use vstd::prelude::*;

verus! {

/// How it is told where a unit comes from.
pub open spec fn provenance(source: UnitSource) -> Seq<char> {
    match source {
        UnitSource::Declared => "declared"@,
        UnitSource::SpecDefault => "spec_default"@,
        UnitSource::Unknown => "unknown"@,
    }
}

/// A payload tells the unit and where it comes from; of a unit that the registry knows also its
/// dimension and base unit, and its canonical spelling where that is another.
pub proof fn law_what_a_payload_tells(unit: Seq<char>, source: UnitSource, info: Option<UnitInfo>)
    ensures
        ({
            let payload = payload_of(unit, source, info);
            let start = "unit="@ + unit + "; source="@ + provenance(source);
            &&& info is None ==> payload == start
            &&& info matches Some(info) ==> {
                let end = "; dimension="@ + info.dimension@ + "; base_unit="@ + info.base_unit@;
                &&& info.canonical@ == unit ==> payload == start + end
                &&& info.canonical@ != unit ==> payload == start + "; canonical="@
                    + info.canonical@ + end
            }
        }),
{
    let start = "unit="@ + unit + "; source="@ + provenance(source);
    let payload = payload_of(unit, source, info);
    match info {
        Some(info) => {
            let end = "; dimension="@ + info.dimension@ + "; base_unit="@ + info.base_unit@;
            if info.canonical@ == unit {
                assert(payload =~= start + end);
            } else {
                assert(payload =~= start + "; canonical="@ + info.canonical@ + end);
            }
        },
        None => {
            assert(payload =~= start);
        },
    }
}

/// A name in quotation marks is read back as the name: between the marks every mark of the name
/// is doubled and nothing else is changed.
pub proof fn law_quoted_names_read_back(name: Seq<char>)
    ensures
        quoted(name).len() >= 2,
        quoted(name)[0] == '"',
        quoted(name).last() == '"',
        read_back(quoted(name).subrange(1, quoted(name).len() - 1), '"') == Some(name),
{
    law_doubled_marks_read_back(name, '"');
    let inner = crate::text::replace(name, '"', seq!['"', '"']);
    assert(quoted(name).subrange(1, quoted(name).len() - 1) =~= inner);
}

/// A column is named by the quoted parts of its table's name and its own quoted name, with dots
/// between them.
pub proof fn law_columns_are_qualified(parts: Seq<Seq<char>>, column: Seq<char>)
    requires
        parts.len() > 0,
        forall|i: int| 0 <= i < parts.len() ==> !(#[trigger] parts[i]).contains('.'),
    ensures
        qualified(join(parts, seq!['.']), column) == join(
            Seq::new((parts.len() + 1) as nat, |i: int| quoted(parts.push(column)[i])),
            seq!['.'],
        ),
{
    law_joined_parts_are_split_again(parts, '.');
    let names = Seq::new((parts.len() + 1) as nat, |i: int| quoted(parts.push(column)[i]));
    assert(names.drop_last() =~= all_quoted(parts));
    assert(names.last() == quoted(column));
}

/// A comment is a statement on the column, whose text is read back as the payload.
pub proof fn law_comments_read_back(table: Seq<char>, column: Seq<char>, payload: Seq<char>)
    ensures
        exists|text: Seq<char>| #[trigger]
            read_back(text, '\'') == Some(payload) && comment_of(table, column, payload)
                == "COMMENT ON COLUMN "@ + qualified(table, column) + " IS '"@ + text + "';"@,
{
    law_doubled_marks_read_back(payload, '\'');
    assert(read_back(escaped(payload), '\'') == Some(payload));
}

/// The comment on a column, if it has a unit.
pub open spec fn comment_if_any(
    table: Seq<char>,
    column: (String, String, UnitSource),
    info: Option<UnitInfo>,
) -> Option<Seq<char>> {
    let (name, unit, source) = column;
    if unit@.len() > 0 {
        Some(comment_of(table, name@, payload_of(unit@, source, info)))
    } else {
        None
    }
}

/// Every column that has a unit gets its comment, in the order of the columns, and no other.
pub proof fn law_columns_with_units_are_commented(
    table: Seq<char>,
    columns: Seq<(String, String, UnitSource)>,
    infos: Seq<Option<UnitInfo>>,
)
    ensures
        comments_for(table, columns, infos) == present(
            Seq::new(columns.len(), |i: int| comment_if_any(table, columns[i], infos[i])),
        ),
    decreases columns.len(),
{
    let all = Seq::new(columns.len(), |i: int| comment_if_any(table, columns[i], infos[i]));
    if columns.len() > 0 {
        let front = columns.drop_last();
        law_columns_with_units_are_commented(table, front, infos);
        assert(all.drop_last() =~= Seq::new(
            front.len(),
            |i: int| comment_if_any(table, front[i], infos[i]),
        ));
    }
}

/// Whether a channel's column is asked for: there is no filter, or it names the channel or the
/// column.
pub open spec fn is_asked_for(
    channel: SourceChannel,
    rules: Seq<Rule>,
    wanted: Seq<Seq<char>>,
) -> bool {
    ||| wanted.len() == 0
    ||| wanted.contains(lower(channel.name@))
    ||| wanted.contains(lower(mapped_name(rules, channel.name@)))
}

/// Whether a channel gives a column its unit: it is the first of those that are asked for and
/// have that column.
pub open spec fn gives(
    channels: Seq<SourceChannel>,
    rules: Seq<Rule>,
    wanted: Seq<Seq<char>>,
    column: Seq<char>,
    c: int,
) -> bool {
    &&& 0 <= c < channels.len()
    &&& is_asked_for(channels[c], rules, wanted)
    &&& mapped_name(rules, channels[c].name@) == column
    &&& forall|d: int|
        0 <= d < c && is_asked_for(#[trigger] channels[d], rules, wanted) ==> mapped_name(
            rules,
            channels[d].name@,
        ) != column
}

/// Every channel that is asked for has its column among those that are commented, and each of
/// these has the unit of the first channel that has it.
pub proof fn law_columns_to_comment(
    channels: Seq<SourceChannel>,
    rules: Seq<Rule>,
    wanted: Seq<Seq<char>>,
)
    ensures
        ({
            let columns = columns_to_comment(channels, rules, wanted);
            &&& forall|c: int|
                0 <= c < channels.len() && is_asked_for(#[trigger] channels[c], rules, wanted)
                    ==> has_column(columns, mapped_name(rules, channels[c].name@))
            &&& forall|k: int|
                0 <= k < columns.len() ==> exists|c: int|
                    gives(channels, rules, wanted, (#[trigger] columns[k]).column, c) && (
                    columns[k].unit, columns[k].source) == mapped_unit(
                        rules,
                        (#[trigger] channels[c]).name@,
                        channels[c].unit@,
                        channels[c].unit_source,
                    )
        }),
    decreases channels.len(),
{
    let columns = columns_to_comment(channels, rules, wanted);
    if channels.len() > 0 {
        let front = channels.drop_last();
        let before = columns_to_comment(front, rules, wanted);
        law_columns_to_comment(front, rules, wanted);
        let n = front.len() as int;
        let channel = channels[n];
        let column = mapped_name(rules, channel.name@);
        assert(channels.last() == channel);
        if is_asked_for(channel, rules, wanted) && !has_column(before, column) {
            assert(columns[before.len() as int].column == column);
            assert forall|d: int|
                0 <= d < n && is_asked_for(
                    #[trigger] channels[d],
                    rules,
                    wanted,
                ) implies mapped_name(rules, channels[d].name@) != column by {
                assert(front[d] == channels[d]);
            }
            assert(gives(channels, rules, wanted, column, n));
        }
        assert forall|c: int|
            0 <= c < channels.len() && is_asked_for(
                #[trigger] channels[c],
                rules,
                wanted,
            ) implies has_column(columns, mapped_name(rules, channels[c].name@)) by {
            if c < n {
                assert(front[c] == channels[c]);
                let k = choose|k: int|
                    0 <= k < before.len() && (#[trigger] before[k]).column == mapped_name(
                        rules,
                        channels[c].name@,
                    );
                assert(columns[k] == before[k]);
            } else if has_column(before, column) {
                let k = choose|k: int|
                    0 <= k < before.len() && (#[trigger] before[k]).column == column;
                assert(columns[k] == before[k]);
            }
        }
        assert forall|k: int| 0 <= k < columns.len() implies exists|c: int|
            gives(channels, rules, wanted, (#[trigger] columns[k]).column, c) && (columns[k].unit,
            columns[k].source) == mapped_unit(
                rules,
                (#[trigger] channels[c]).name@,
                channels[c].unit@,
                channels[c].unit_source,
            ) by {
            if k < before.len() {
                assert(columns[k] == before[k]);
                let c = choose|c: int|
                    gives(front, rules, wanted, before[k].column, c) && (before[k].unit,
                    before[k].source) == mapped_unit(
                        rules,
                        (#[trigger] front[c]).name@,
                        front[c].unit@,
                        front[c].unit_source,
                    );
                assert(front[c] == channels[c]);
                assert forall|d: int|
                    0 <= d < c && is_asked_for(
                        #[trigger] channels[d],
                        rules,
                        wanted,
                    ) implies mapped_name(rules, channels[d].name@) != columns[k].column by {
                    assert(front[d] == channels[d]);
                }
                assert(gives(channels, rules, wanted, columns[k].column, c));
            } else {
                assert(gives(channels, rules, wanted, columns[k].column, n));
                assert(channels[n].name@ == channel.name@);
            }
        }
    }
}

/// Columns are commented in the order of their channels: a further channel adds at most its own
/// column, behind the others.
pub proof fn law_comments_come_as_channels_do(
    channels: Seq<SourceChannel>,
    channel: SourceChannel,
    rules: Seq<Rule>,
    wanted: Seq<Seq<char>>,
)
    ensures
        ({
            let before = columns_to_comment(channels, rules, wanted);
            let after = columns_to_comment(channels.push(channel), rules, wanted);
            ||| after == before
            ||| after.drop_last() == before && after.len() == before.len() + 1
                && after.last().column == mapped_name(rules, channel.name@)
        }),
{
    assert(channels.push(channel).drop_last() =~= channels);
    let before = columns_to_comment(channels, rules, wanted);
    let after = columns_to_comment(channels.push(channel), rules, wanted);
    if after != before {
        assert(after.drop_last() =~= before);
    }
}

/// The rule for a column keeps its name and states its unit; a column without a unit has none.
pub proof fn law_the_rule_for_a_column(column: Seq<char>, unit: Seq<char>)
    ensures
        unit.len() == 0 ==> rule_for_column(column, unit).len() == 0,
        unit.len() > 0 ==> rule_for_column(column, unit) == column + " -> "@ + column + " ["@ + unit
            + "]"@,
{
}

} // verus!

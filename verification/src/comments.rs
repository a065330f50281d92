//! Units that travel with a table: column comments and file metadata.
use crate::cell::{text_cell, Cell, CellModel};
use crate::channel_map::{
    arrow, fields, mapped_name, mapped_unit, numbers_in, rest_part, rule_line, rule_on, rule_parts,
    rules_on, source_part, states_offset, states_scale, ChannelMap, Fields, Rule,
};
use crate::channels::bind_channels;
use crate::filter::{parse_channel_filter, requested_names, ChannelFilter};
use crate::number::{ONE, ZERO};
use crate::samples::{map_refusal, stated_rules};
use crate::source::{channels_of, names_of, SourceChannel, SourceFile, UnitSource};
use crate::text::{
    find_from, is_space, join, join_all, lemma_find_from, lower, occurs_at,
    replace, replace_char, split, split_on, texts, to_lower, trim, trim_end, trim_start, words,
};
use vstd::prelude::*;

verus! {

/// What the registry of units knows of a unit.
#[derive(Debug)]
pub struct UnitInfo {
    pub canonical: String,
    pub dimension: String,
    pub base_unit: String,
}

// ---------------------------------------------------------------------------------------
// Payload and quoting
// ---------------------------------------------------------------------------------------
/// What is told of a unit that is known: its canonical spelling, where that is another one,
/// and its dimension.
pub open spec fn registry_part(unit: Seq<char>, info: Option<UnitInfo>) -> Seq<char> {
    match info {
        Some(info) => (if info.canonical@ == unit {
            Seq::empty()
        } else {
            "; canonical="@ + info.canonical@
        }) + "; dimension="@ + info.dimension@ + "; base_unit="@ + info.base_unit@,
        None => Seq::empty(),
    }
}

/// What is told of a unit.
pub open spec fn payload_of(
    unit: Seq<char>,
    source: UnitSource,
    info: Option<UnitInfo>,
) -> Seq<char> {
    "unit="@ + unit + "; source="@ + source.label() + registry_part(unit, info)
}

/// A name in SQL, with quotes in it doubled.
pub open spec fn quoted(name: Seq<char>) -> Seq<char> {
    seq!['"'] + replace(name, '"', seq!['"', '"']) + seq!['"']
}

/// Names in SQL.
pub open spec fn all_quoted(names: Seq<Seq<char>>) -> Seq<Seq<char>> {
    Seq::new(names.len(), |i: int| quoted(names[i]))
}

/// A column of a table in SQL. The table may have a schema before its name.
pub open spec fn qualified(table: Seq<char>, column: Seq<char>) -> Seq<char> {
    join(all_quoted(split(table, '.')), seq!['.']) + seq!['.'] + quoted(column)
}

/// Text for a literal in SQL, with apostrophes doubled.
pub open spec fn escaped(text: Seq<char>) -> Seq<char> {
    replace(text, '\'', seq!['\'', '\''])
}

/// The statement that comments a column.
pub open spec fn comment_of(table: Seq<char>, column: Seq<char>, payload: Seq<char>) -> Seq<char> {
    "COMMENT ON COLUMN "@ + qualified(table, column) + " IS '"@ + escaped(payload) + "';"@
}

/// What a reader takes doubled marks for: a mark that stands alone ends the text, so there is
/// none in a text that can be read to its end.
pub open spec fn read_back(text: Seq<char>, mark: char) -> Option<Seq<char>>
    decreases text.len(),
{
    if text.len() == 0 {
        Some(Seq::empty())
    } else if text[0] != mark {
        match read_back(text.skip(1), mark) {
            Some(rest) => Some(seq![text[0]] + rest),
            None => None,
        }
    } else if text.len() >= 2 && text[1] == mark {
        match read_back(text.skip(2), mark) {
            Some(rest) => Some(seq![mark] + rest),
            None => None,
        }
    } else {
        None
    }
}

proof fn lemma_replace_first(s: Seq<char>, from: char, to: Seq<char>)
    requires
        s.len() > 0,
    ensures
        replace(s, from, to) == (if s[0] == from {
            to
        } else {
            seq![s[0]]
        }) + replace(s.skip(1), from, to),
    decreases s.len(),
{
    let first = if s[0] == from {
        to
    } else {
        seq![s[0]]
    };
    if s.len() == 1 {
        assert(s.drop_last() =~= Seq::empty());
        assert(s.skip(1) =~= Seq::empty());
        assert(replace(s.drop_last(), from, to) =~= Seq::empty());
        assert(replace(s, from, to) =~= first + replace(s.skip(1), from, to));
    } else {
        lemma_replace_first(s.drop_last(), from, to);
        assert(s.drop_last().skip(1) =~= s.skip(1).drop_last());
        assert(s.skip(1).last() == s.last());
        assert(replace(s, from, to) =~= first + replace(s.skip(1), from, to));
    }
}

/// Doubling a mark is undone by reading: whatever a name or a text holds, it is read back as it
/// was, and it never ends early.
pub proof fn law_doubled_marks_read_back(text: Seq<char>, mark: char)
    ensures
        read_back(replace(text, mark, seq![mark, mark]), mark) == Some(text),
    decreases text.len(),
{
    let doubled = replace(text, mark, seq![mark, mark]);
    if text.len() > 0 {
        let rest = replace(text.skip(1), mark, seq![mark, mark]);
        lemma_replace_first(text, mark, seq![mark, mark]);
        law_doubled_marks_read_back(text.skip(1), mark);
        if text[0] == mark {
            assert(doubled.skip(2) =~= rest);
            assert(seq![mark] + text.skip(1) =~= text);
        } else {
            assert(doubled.skip(1) =~= rest);
            assert(seq![text[0]] + text.skip(1) =~= text);
        }
    }
}

/// What is told of a unit, given what the registry knows of it.
pub fn unit_payload(unit: &str, source: UnitSource, info: &Option<UnitInfo>) -> (payload: String)
    ensures
        payload@ == payload_of(unit@, source, *info),
{
    let mut payload = "unit=".to_owned();
    payload.append(unit);
    payload.append("; source=");
    payload.append(source.name());
    if let Some(info) = info {
        let ghost before = payload@;
        if !(*info.canonical.as_str() == *unit) {
            payload.append("; canonical=");
            payload.append(info.canonical.as_str());
        }
        payload.append("; dimension=");
        payload.append(info.dimension.as_str());
        payload.append("; base_unit=");
        payload.append(info.base_unit.as_str());
        assert(payload@ =~= before + registry_part(unit@, Some(*info)));
    }
    assert(payload@ =~= payload_of(unit@, source, *info));
    payload
}

/// A name in SQL.
fn quote(name: &str) -> (text: String)
    ensures
        text@ == quoted(name@),
{
    proof {
        reveal_strlit("\"");
        reveal_strlit("\"\"");
        assert("\""@ =~= seq!['"']);
        assert("\"\""@ =~= seq!['"', '"']);
    }
    let mut text = "\"".to_owned();
    let inner = replace_char(name, '"', "\"\"");
    text.append(inner.as_str());
    text.append("\"");
    text
}

/// A column of a table in SQL. The table may have a schema before its name.
pub fn quote_qualified(table: &str, column: &str) -> (text: String)
    ensures
        text@ == qualified(table@, column@),
{
    let parts = split_on(table, '.');
    let ghost names = texts(parts@);
    let mut pieces: Vec<String> = Vec::new();
    let mut i: usize = 0;
    while i < parts.len()
        invariant
            i <= parts@.len(),
            names == texts(parts@),
            texts(pieces@) == all_quoted(names.take(i as int)),
        decreases parts@.len() - i,
    {
        let ghost before = pieces@;
        let piece = quote(parts[i].as_str());
        pieces.push(piece);
        assert(texts(pieces@) =~= texts(before).push(piece@));
        assert(all_quoted(names.take(i + 1)) =~= all_quoted(names.take(i as int)).push(piece@));
        i = i + 1;
    }
    proof {
        assert(names.take(i as int) =~= names);
        reveal_strlit(".");
        assert("."@ =~= seq!['.']);
    }
    let mut text = join_all(&pieces, ".");
    text.append(".");
    let last = quote(column);
    text.append(last.as_str());
    text
}

/// Text for a literal in SQL.
pub fn escape_literal(value: &str) -> (text: String)
    ensures
        text@ == escaped(value@),
{
    proof {
        reveal_strlit("''");
        assert("''"@ =~= seq!['\'', '\'']);
    }
    replace_char(value, '\'', "''")
}

/// The statement that comments a column.
fn comment(table: &str, column: &str, payload: &str) -> (ddl: String)
    ensures
        ddl@ == comment_of(table@, column@, payload@),
{
    let mut ddl = "COMMENT ON COLUMN ".to_owned();
    let name = quote_qualified(table, column);
    ddl.append(name.as_str());
    ddl.append(" IS '");
    let literal = escape_literal(payload);
    ddl.append(literal.as_str());
    ddl.append("';");
    ddl
}

/// The statements for columns with a unit; a column without one gets none.
pub open spec fn comments_for(
    table: Seq<char>,
    columns: Seq<(String, String, UnitSource)>,
    infos: Seq<Option<UnitInfo>>,
) -> Seq<Seq<char>>
    decreases columns.len(),
{
    if columns.len() == 0 {
        Seq::empty()
    } else {
        let before = comments_for(table, columns.drop_last(), infos);
        let (column, unit, source) = columns.last();
        if unit@.len() == 0 {
            before
        } else {
            before.push(
                comment_of(table, column@, payload_of(unit@, source, infos[columns.len() - 1])),
            )
        }
    }
}

/// The statements that tell the unit of each column, given what the registry knows of each
/// unit. Columns without a unit are skipped.
pub fn column_comment_ddl(
    table: &str,
    columns: &Vec<(String, String, UnitSource)>,
    infos: &Vec<Option<UnitInfo>>,
) -> (statements: Vec<String>)
    requires
        infos@.len() == columns@.len(),
    ensures
        texts(statements@) == comments_for(table@, columns@, infos@),
{
    let mut statements: Vec<String> = Vec::new();
    let mut i: usize = 0;
    assert(texts(statements@) =~= comments_for(table@, columns@.take(0), infos@));
    while i < columns.len()
        invariant
            i <= columns@.len(),
            infos@.len() == columns@.len(),
            texts(statements@) == comments_for(table@, columns@.take(i as int), infos@),
        decreases columns@.len() - i,
    {
        assert(columns@.take(i + 1).drop_last() =~= columns@.take(i as int));
        let unit = &columns[i].1;
        if !unit.as_str().is_empty() {
            let payload = unit_payload(unit.as_str(), columns[i].2, &infos[i]);
            let ghost before = statements@;
            let statement = comment(table, columns[i].0.as_str(), payload.as_str());
            statements.push(statement);
            assert(texts(statements@) =~= texts(before).push(statement@));
        }
        i = i + 1;
    }
    assert(columns@.take(i as int) =~= columns@);
    statements
}

// ---------------------------------------------------------------------------------------
// Columns of a table of channels
// ---------------------------------------------------------------------------------------
/// A column that is to be commented.
#[derive(Debug)]
pub struct CommentColumn {
    pub column: String,
    pub unit: String,
    pub source: UnitSource,
}

/// What a column that is to be commented is.
#[verifier::ext_equal]
pub struct CommentModel {
    pub column: Seq<char>,
    pub unit: Seq<char>,
    pub source: UnitSource,
}

impl View for CommentColumn {
    type V = CommentModel;

    open spec fn view(&self) -> CommentModel {
        CommentModel {
            column: self.column@,
            unit: self.unit@,
            source: self.source,
        }
    }
}

/// What columns that are to be commented are.
pub open spec fn comment_models(columns: Seq<CommentColumn>) -> Seq<CommentModel> {
    Seq::new(columns.len(), |i: int| columns[i]@)
}

/// Whether a column is there already.
pub open spec fn has_column(columns: Seq<CommentModel>, column: Seq<char>) -> bool {
    exists|i: int| 0 <= i < columns.len() && (#[trigger] columns[i]).column == column
}

/// The columns for the channels whose own or whose mapped name is selected, one for each name.
pub open spec fn columns_to_comment(
    channels: Seq<SourceChannel>,
    rules: Seq<Rule>,
    wanted: Seq<Seq<char>>,
) -> Seq<CommentModel>
    decreases channels.len(),
{
    if channels.len() == 0 {
        Seq::empty()
    } else {
        let before = columns_to_comment(channels.drop_last(), rules, wanted);
        let channel = channels.last();
        let column = mapped_name(rules, channel.name@);
        let unit = mapped_unit(rules, channel.name@, channel.unit@, channel.unit_source);
        if (wanted.len() > 0 && !wanted.contains(lower(channel.name@)) && !wanted.contains(
            lower(column),
        )) || has_column(before, column) {
            before
        } else {
            before.push(CommentModel { column, unit: unit.0, source: unit.1 })
        }
    }
}

/// No column is commented twice.
pub proof fn law_comment_columns_differ(
    channels: Seq<SourceChannel>,
    rules: Seq<Rule>,
    wanted: Seq<Seq<char>>,
)
    ensures
        forall|i: int, j: int|
            0 <= i < j < columns_to_comment(channels, rules, wanted).len() ==> (
            #[trigger] columns_to_comment(channels, rules, wanted)[i]).column != (
            #[trigger] columns_to_comment(channels, rules, wanted)[j]).column,
    decreases channels.len(),
{
    if channels.len() > 0 {
        law_comment_columns_differ(channels.drop_last(), rules, wanted);
        let before = columns_to_comment(channels.drop_last(), rules, wanted);
        let all = columns_to_comment(channels, rules, wanted);
        assert forall|i: int, j: int| 0 <= i < j < all.len() implies (#[trigger] all[i]).column
            != (#[trigger] all[j]).column by {
            assert(all[i] == before[i]);
            if j < before.len() {
                assert(all[j] == before[j]);
            }
        }
    }
}

/// Whether a column is there already.
fn contains_column(columns: &Vec<CommentColumn>, column: &str) -> (found: bool)
    ensures
        found == has_column(comment_models(columns@), column@),
{
    let mut i: usize = 0;
    while i < columns.len()
        invariant
            i <= columns@.len(),
            forall|k: int|
                0 <= k < i ==> (#[trigger] comment_models(columns@)[k]).column != column@,
        decreases columns@.len() - i,
    {
        if *columns[i].column.as_str() == *column {
            assert(comment_models(columns@)[i as int].column == column@);
            return true;
        }
        i = i + 1;
    }
    false
}

/// The columns for the channels of the files whose own or whose mapped name is selected.
pub fn comment_columns(files: &Vec<SourceFile>, map: &ChannelMap, filter: &ChannelFilter)
    -> (columns: Vec<CommentColumn>)
    ensures
        comment_models(columns@) == columns_to_comment(channels_of(files@), map@, filter@),
{
    let mut columns: Vec<CommentColumn> = Vec::new();
    let mut f: usize = 0;
    assert(channels_of(files@.take(0)).len() == 0);
    assert(comment_models(columns@) =~= Seq::empty());
    while f < files.len()
        invariant
            f <= files@.len(),
            comment_models(columns@) == columns_to_comment(
                channels_of(files@.take(f as int)),
                map@,
                filter@,
            ),
        decreases files@.len() - f,
    {
        let channels = &files[f].channels;
        let ghost before = channels_of(files@.take(f as int));
        let mut c: usize = 0;
        assert(before + channels@.take(0) =~= before);
        while c < channels.len()
            invariant
                c <= channels@.len(),
                comment_models(columns@) == columns_to_comment(
                    before + channels@.take(c as int),
                    map@,
                    filter@,
                ),
            decreases channels@.len() - c,
        {
            let ghost upto = before + channels@.take(c + 1);
            assert(upto.drop_last() =~= before + channels@.take(c as int));
            assert(upto.last() == channels@[c as int]);
            let channel = &channels[c];
            let column = map.name_for(channel.name.as_str()).to_owned();
            let taken: bool = filter.is_empty() || filter.contains(
                to_lower(channel.name.as_str()).as_str(),
            ) || filter.contains(to_lower(column.as_str()).as_str());
            if taken && !contains_column(&columns, column.as_str()) {
                let (unit, source) = map.unit_for(
                    channel.name.as_str(),
                    channel.unit.as_str(),
                    channel.unit_source,
                );
                let ghost earlier = columns@;
                let added = CommentColumn { column, unit, source };
                columns.push(added);
                assert(comment_models(columns@) =~= comment_models(earlier).push(added@));
            }
            c = c + 1;
        }
        assert(channels@.take(c as int) =~= channels@);
        assert(files@.take(f + 1).drop_last() =~= files@.take(f as int));
        f = f + 1;
    }
    assert(files@.take(f as int) =~= files@);
    columns
}

/// Checks a request for comments: the columns for the channels of the files, under a
/// `channel_map` argument. A rule for a channel that no file has is refused.
pub fn bind_comments(
    files: &Vec<SourceFile>,
    channels: Option<&str>,
    map: Result<ChannelMap, String>,
) -> (bound: Result<Vec<CommentColumn>, String>)
    ensures
        ({
            let wanted = requested_names(
                match channels {
                    Some(text) => Some(text@),
                    None => None,
                },
            );
            let all = channels_of(files@);
            let refusal = map_refusal(stated_rules(map), names_of(all));
            match bound {
                Ok(columns) => refusal is None && comment_models(columns@) == columns_to_comment(
                    all,
                    map->Ok_0@,
                    wanted,
                ),
                Err(message) => refusal == Some(message@),
            }
        }),
{
    match bind_channels(files, map) {
        Ok(map) => Ok(comment_columns(files, &map, &parse_channel_filter(channels))),
        Err(message) => Err(message),
    }
}

/// What is handed out for a column.
#[derive(Debug)]
pub struct Statement {
    pub column: String,
    pub unit: String,
    pub ddl: String,
    pub kv_metadata: String,
    pub channel_map_rule: String,
}

/// What stands in a column of the row of a statement.
pub open spec fn statement_cell_of(statement: Statement, column: u64) -> CellModel {
    if column == 0 {
        CellModel::Text(statement.column@)
    } else if column == 1 {
        CellModel::Text(statement.unit@)
    } else if column == 2 {
        CellModel::Text(statement.ddl@)
    } else if column == 3 {
        CellModel::Text(statement.kv_metadata@)
    } else {
        CellModel::Text(statement.channel_map_rule@)
    }
}

impl Statement {
    /// What stands in a column of the row of this statement.
    pub fn cell(&self, column: u64) -> (cell: Cell)
        requires
            column < 5,
        ensures
            cell@ == statement_cell_of(*self, column),
    {
        match column {
            0 => text_cell(self.column.as_str()),
            1 => text_cell(self.unit.as_str()),
            2 => text_cell(self.ddl.as_str()),
            3 => text_cell(self.kv_metadata.as_str()),
            _ => text_cell(self.channel_map_rule.as_str()),
        }
    }
}

/// The rule that states a column's name and unit; none for a column without a unit.
pub open spec fn rule_for_column(column: Seq<char>, unit: Seq<char>) -> Seq<char> {
    if unit.len() == 0 {
        Seq::empty()
    } else {
        column + " -> "@ + column + " ["@ + unit + "]"@
    }
}

/// What is handed out for a column, given what the registry knows of its unit. The comment and
/// the metadata of a file tell the same.
pub fn comment_statement(
    table: &str,
    column: &CommentColumn,
    info: &Option<UnitInfo>,
) -> (statement: Statement)
    ensures
        statement.column@ == column@.column,
        statement.unit@ == column@.unit,
        statement.kv_metadata@ == payload_of(column@.unit, column@.source, *info),
        statement.ddl@ == comment_of(table@, column@.column, statement.kv_metadata@),
        statement.channel_map_rule@ == rule_for_column(column@.column, column@.unit),
{
    let payload = unit_payload(column.unit.as_str(), column.source, info);
    let ddl = comment(table, column.column.as_str(), payload.as_str());
    let mut rule = String::new();
    if !column.unit.as_str().is_empty() {
        rule.append(column.column.as_str());
        rule.append(" -> ");
        rule.append(column.column.as_str());
        rule.append(" [");
        rule.append(column.unit.as_str());
        rule.append("]");
    }
    assert(rule@ =~= rule_for_column(column@.column, column@.unit));
    Statement {
        column: column.column.clone(),
        unit: column.unit.clone(),
        ddl,
        kv_metadata: payload,
        channel_map_rule: rule,
    }
}

// ---------------------------------------------------------------------------------------
// The rule that is handed out says what the column says
// ---------------------------------------------------------------------------------------
/// Whether text has no white space around it, and is not empty.
pub open spec fn is_tight(s: Seq<char>) -> bool {
    s.len() > 0 && !is_space(s[0]) && !is_space(s.last())
}

/// Whether a name can stand in a rule: it has no marks of a rule in it, its words are single
/// spaces apart, and none of them reads as a number.
pub open spec fn is_rule_name(name: Seq<char>) -> bool {
    &&& is_tight(name)
    &&& !name.contains('\n')
    &&& !name.contains('#')
    &&& !name.contains('[')
    &&& forall|k: int| !#[trigger] occurs_at(name, arrow(), k)
    &&& join(words(name), seq![' ']) == name
    &&& forall|i: int|
        0 <= i < words(name).len() ==> !states_scale(#[trigger] words(name)[i]) && !states_offset(
            words(name)[i],
        )
}

/// Whether a unit can stand in a rule.
pub open spec fn is_rule_unit(unit: Seq<char>) -> bool {
    is_tight(unit) && !unit.contains('\n') && !unit.contains('#') && !unit.contains(']')
}

proof fn lemma_trim_tight(s: Seq<char>)
    requires
        is_tight(s),
    ensures
        trim(s) == s,
        trim(s + seq![' ']) == s,
        trim(seq![' '] + s) == s,
{
    reveal_with_fuel(trim_start, 2);
    reveal_with_fuel(trim_end, 2);
    let after = s + seq![' '];
    assert(after[0] == s[0]);
    assert(after.drop_last() =~= s);
    let before = seq![' '] + s;
    assert(before.skip(1) =~= s);
}

proof fn lemma_split_whole(s: Seq<char>, mark: char)
    requires
        !s.contains(mark),
    ensures
        split(s, mark) == seq![s],
    decreases s.len(),
{
    if s.len() > 0 {
        let front = s.drop_last();
        assert forall|i: int| 0 <= i < front.len() implies front[i] != mark by {
            assert(s[i] == front[i]);
            assert(s.contains(s[i]));
        }
        assert(s.contains(s[s.len() - 1]));
        lemma_split_whole(front, mark);
        assert(split(s, mark) =~= seq![front.push(s.last())]);
        assert(front.push(s.last()) =~= s);
    } else {
        assert(s =~= Seq::empty());
    }
}

proof fn lemma_find_at(s: Seq<char>, pattern: Seq<char>, from: int, at: int)
    requires
        0 <= from <= at,
        occurs_at(s, pattern, at),
        forall|k: int| from <= k < at ==> !#[trigger] occurs_at(s, pattern, k),
    ensures
        find_from(s, pattern, from) == Some(at),
{
    lemma_find_from(s, pattern, from);
}

proof fn lemma_plain_fields(list: Seq<Seq<char>>, readings: Seq<Option<u64>>)
    requires
        forall|i: int|
            0 <= i < list.len() ==> !states_scale(#[trigger] list[i]) && !states_offset(list[i]),
    ensures
        fields(list, readings) == Ok::<Fields, Seq<char>>(
            Fields { target: list, scale: ONE, offset: ZERO },
        ),
        numbers_in(list).len() == 0,
    decreases list.len(),
{
    if list.len() > 0 {
        let front = list.drop_last();
        assert forall|i: int| 0 <= i < front.len() implies !states_scale(#[trigger] front[i])
            && !states_offset(front[i]) by {
            assert(front[i] == list[i]);
        }
        lemma_plain_fields(front, readings);
        assert(list.last() == list[list.len() - 1]);
        assert(front.push(list.last()) =~= list);
    } else {
        assert(list =~= Seq::empty());
    }
}

proof fn lemma_no_words_lost(s: Seq<char>)
    ensures
        words(s + seq![' '] + seq![' ']) == words(s),
{
    let one = s + seq![' '];
    let two = one + seq![' '];
    assert(two.drop_last() =~= one && two.last() == ' ');
    assert(one.drop_last() =~= s && one.last() == ' ');
    assert(words(one) == words(s));
}

/// The rule that is handed out for a column states that column's name and unit and changes no
/// value: read back, it is one rule that maps the column to itself with its unit.
#[verifier::rlimit(30)]
pub proof fn law_rule_reproduces_the_column(column: Seq<char>, unit: Seq<char>)
    requires
        is_rule_name(column),
        is_rule_unit(unit),
    ensures
        rules_on(split(rule_for_column(column, unit), '\n'), Seq::empty()) == Ok::<
            Seq<Rule>,
            Seq<char>,
        >(
            seq![
                Rule {
                    source: column,
                    target: Some(column),
                    unit: Some(unit),
                    scale: ONE,
                    offset: ZERO,
                },
            ],
        ),
{
    let line = rule_for_column(column, unit);
    let n = column.len() as int;
    let m = unit.len() as int;
    reveal_strlit(" -> ");
    reveal_strlit(" [");
    reveal_strlit("]");
    let rest = column + seq![' ', '['] + unit + seq![']'];
    assert(line =~= column + seq![' ', '-', '>', ' '] + rest);
    // One line, no comment, and nothing to trim.
    assert(!line.contains('\n') && !line.contains('#')) by {
        assert forall|i: int| 0 <= i < line.len() implies line[i] != '\n' && line[i] != '#' by {
            if i < n {
                assert(column.contains(column[i]));
            } else if n + 4 <= i < n + 4 + n {
                assert(line[i] == column[i - n - 4]);
                assert(column.contains(column[i - n - 4]));
            } else if n + n + 6 <= i < n + n + 6 + m {
                assert(line[i] == unit[i - n - n - 6]);
                assert(unit.contains(unit[i - n - n - 6]));
            }
        }
    }
    lemma_split_whole(line, '\n');
    lemma_split_whole(line, '#');
    assert(line[0] == column[0] && line.last() == ']');
    lemma_trim_tight(line);
    assert(rule_line(line) == line);
    // The arrow.
    assert(occurs_at(line, arrow(), n + 1)) by {
        assert(line.subrange(n + 1, n + 3) =~= arrow());
    }
    assert forall|k: int| 0 <= k < n + 1 implies !#[trigger] occurs_at(line, arrow(), k) by {
        if occurs_at(line, arrow(), k) {
            let found = line.subrange(k, k + 2);
            assert(found[0] == '-' && found[1] == '>');
            assert(line[k] == '-' && line[k + 1] == '>');
            if k + 2 <= n {
                assert(column.subrange(k, k + 2) =~= arrow());
                assert(occurs_at(column, arrow(), k));
            }
        }
    }
    lemma_find_at(line, arrow(), 0, n + 1);
    assert(line.take(n + 1) =~= column + seq![' ']);
    assert(line.skip(n + 3) =~= seq![' '] + rest);
    lemma_trim_tight(column);
    assert(rest[0] == column[0] && rest.last() == ']');
    lemma_trim_tight(rest);
    assert(source_part(line) == column);
    assert(rest_part(line) == rest);
    // The unit.
    let opening = seq!['['];
    let closing = seq![']'];
    assert(occurs_at(rest, opening, n + 1)) by {
        assert(rest.subrange(n + 1, n + 2) =~= opening);
    }
    assert forall|k: int| 0 <= k < n + 1 implies !#[trigger] occurs_at(rest, opening, k) by {
        if occurs_at(rest, opening, k) {
            assert(rest.subrange(k, k + 1)[0] == '[');
            assert(rest[k] == '[');
            if k < n {
                assert(column.contains(column[k]));
            }
        }
    }
    lemma_find_at(rest, opening, 0, n + 1);
    assert(occurs_at(rest, closing, n + 2 + m)) by {
        assert(rest.subrange(n + 2 + m, n + 3 + m) =~= closing);
    }
    assert forall|k: int| n + 1 <= k < n + 2 + m implies !#[trigger] occurs_at(
        rest,
        closing,
        k,
    ) by {
        if occurs_at(rest, closing, k) {
            assert(rest.subrange(k, k + 1)[0] == ']');
            assert(rest[k] == ']');
            if k >= n + 2 {
                assert(unit.contains(unit[k - n - 2]));
            }
        }
    }
    lemma_find_at(rest, closing, n + 1, n + 2 + m);
    assert(rest.subrange(n + 2, n + 2 + m) =~= unit);
    lemma_trim_tight(unit);
    // The words.
    assert(rest.take(n + 1) + seq![' '] + rest.skip(n + 3 + m) =~= column + seq![' '] + seq![' ']);
    lemma_no_words_lost(column);
    lemma_plain_fields(words(column), Seq::empty());
    assert(rule_parts(line) is Ok);
    assert(words(column).len() > 0) by {
        if words(column).len() == 0 {
            assert(join(words(column), seq![' ']).len() == 0);
        }
    }
    let lines = seq![line];
    assert(lines.drop_last() =~= Seq::empty());
    assert(lines.last() == line);
    reveal_with_fuel(rules_on, 2);
    let own = crate::channel_map::readings_on_last(lines, Seq::empty());
    lemma_plain_fields(words(column), own);
    assert(rule_on(line, own) is Ok);
    assert(rules_on(lines, Seq::empty())->Ok_0 =~= seq![rule_on(line, own)->Ok_0]);
}

} // verus!

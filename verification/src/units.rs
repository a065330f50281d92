//! The registry of units as a table, and conversions row by row.
use crate::cell::{text_cell, Cell, CellModel};
use crate::schema::{page, page_of, ColumnKind};
use crate::text::{chars_of, matches_at, occurs_at, string_of};
use vstd::prelude::*;

verus! {

/// A unit of the registry. Factor and offset, which convert to the base unit, are bit patterns.
#[derive(Debug)]
pub struct UnitDef {
    pub canonical: String,
    pub aliases: Vec<String>,
    pub dimension: String,
    pub base_unit: String,
    pub is_convertible: bool,
    pub factor: u64,
    pub offset: u64,
}

/// A spelling of a unit.
#[derive(Debug)]
pub struct UnitRow {
    pub spelling: String,
    pub canonical: String,
    pub is_canonical: bool,
    pub dimension: String,
    pub base_unit: String,
    pub is_convertible: bool,
    pub factor: u64,
    pub offset: u64,
}

/// What a row is.
#[verifier::ext_equal]
pub struct RowModel {
    pub spelling: Seq<char>,
    pub canonical: Seq<char>,
    pub is_canonical: bool,
    pub dimension: Seq<char>,
    pub base_unit: Seq<char>,
    pub is_convertible: bool,
    pub factor: u64,
    pub offset: u64,
}

impl View for UnitRow {
    type V = RowModel;

    open spec fn view(&self) -> RowModel {
        RowModel {
            spelling: self.spelling@,
            canonical: self.canonical@,
            is_canonical: self.is_canonical,
            dimension: self.dimension@,
            base_unit: self.base_unit@,
            is_convertible: self.is_convertible,
            factor: self.factor,
            offset: self.offset,
        }
    }
}

/// What rows are.
pub open spec fn rows_of(rows: Seq<UnitRow>) -> Seq<RowModel> {
    Seq::new(rows.len(), |i: int| rows[i]@)
}

/// The row for a spelling of a unit.
pub open spec fn row_for(def: UnitDef, spelling: Seq<char>, is_canonical: bool) -> RowModel {
    RowModel {
        spelling,
        canonical: def.canonical@,
        is_canonical,
        dimension: def.dimension@,
        base_unit: def.base_unit@,
        is_convertible: def.is_convertible,
        factor: def.factor,
        offset: def.offset,
    }
}

/// The rows for a unit: its canonical spelling, then the others.
pub open spec fn rows_for(def: UnitDef) -> Seq<RowModel> {
    seq![row_for(def, def.canonical@, true)] + Seq::new(
        def.aliases@.len(),
        |i: int| row_for(def, def.aliases@[i]@, false),
    )
}

/// The rows for the units of a registry.
pub open spec fn registry_rows(defs: Seq<UnitDef>) -> Seq<RowModel>
    decreases defs.len(),
{
    if defs.len() == 0 {
        Seq::empty()
    } else {
        registry_rows(defs.drop_last()) + rows_for(defs.last())
    }
}

/// The table of units: a row for each spelling, so that canonical and other spellings can be
/// searched for.
#[derive(Debug)]
pub struct UnitsBind {
    pub rows: Vec<UnitRow>,
}

/// How far the table has been handed out.
#[derive(Debug, Clone, Copy, PartialEq, Eq, Structural)]
pub struct UnitsInit {
    pub next: usize,
}

/// The table of units.
#[derive(Debug, Clone, Copy, PartialEq, Eq, Structural)]
pub struct UnitsVTab;

/// Conversion of values between units.
#[derive(Debug, Clone, Copy, PartialEq, Eq, Structural)]
pub struct ConvertScalar;

/// Conversion of a column of values to a unit, from the one that its type names.
#[derive(Debug, Clone, Copy, PartialEq, Eq, Structural)]
pub struct ConvertColumnScalar;

/// Whether values can be converted between units.
#[derive(Debug, Clone, Copy, PartialEq, Eq, Structural)]
pub struct CanConvertScalar;

/// The row for a spelling of a unit.
fn make_row(def: &UnitDef, spelling: &str, is_canonical: bool) -> (row: UnitRow)
    ensures
        row@ == row_for(*def, spelling@, is_canonical),
{
    UnitRow {
        spelling: spelling.to_owned(),
        canonical: def.canonical.clone(),
        is_canonical,
        dimension: def.dimension.clone(),
        base_unit: def.base_unit.clone(),
        is_convertible: def.is_convertible,
        factor: def.factor,
        offset: def.offset,
    }
}

/// What stands in a column of the row of a spelling.
pub open spec fn unit_cell_of(row: RowModel, column: u64) -> CellModel {
    if column == 0 {
        CellModel::Text(row.spelling)
    } else if column == 1 {
        CellModel::Text(row.canonical)
    } else if column == 2 {
        CellModel::Flag(row.is_canonical)
    } else if column == 3 {
        CellModel::Text(row.dimension)
    } else if column == 4 {
        CellModel::Text(row.base_unit)
    } else if column == 5 {
        CellModel::Number(row.factor)
    } else if column == 6 {
        CellModel::Number(row.offset)
    } else {
        CellModel::Flag(row.is_convertible)
    }
}

impl UnitsVTab {
    /// The table for the units of a registry.
    pub fn bind(defs: &Vec<UnitDef>) -> (bound: UnitsBind)
        ensures
            rows_of(bound.rows@) == registry_rows(defs@),
    {
        let mut rows: Vec<UnitRow> = Vec::new();
        let mut d: usize = 0;
        assert(rows_of(rows@) =~= registry_rows(defs@.take(0)));
        while d < defs.len()
            invariant
                d <= defs@.len(),
                rows_of(rows@) == registry_rows(defs@.take(d as int)),
            decreases defs@.len() - d,
        {
            let def = &defs[d];
            let ghost before = rows_of(rows@);
            let ghost all = rows_for(*def);
            let ghost earlier = rows@;
            let row = make_row(def, def.canonical.as_str(), true);
            rows.push(row);
            assert(rows_of(rows@) =~= rows_of(earlier).push(row@));
            assert(rows_of(rows@) =~= before + all.take(1));
            let mut a: usize = 0;
            while a < def.aliases.len()
                invariant
                    a <= def.aliases@.len(),
                    all == rows_for(*def),
                    rows_of(rows@) == before + all.take(1 + a),
                decreases def.aliases@.len() - a,
            {
                let ghost earlier = rows@;
                let row = make_row(def, def.aliases[a].as_str(), false);
                rows.push(row);
                assert(rows_of(rows@) =~= rows_of(earlier).push(row@));
                assert(rows_of(rows@) =~= before + all.take(2 + a));
                a = a + 1;
            }
            proof {
                assert(all.take(1 + a) =~= all);
                assert(defs@.take(d + 1).drop_last() =~= defs@.take(d as int));
            }
            d = d + 1;
        }
        assert(defs@.take(d as int) =~= defs@);
        UnitsBind { rows }
    }

    /// Nothing has been handed out.
    pub fn init() -> (state: UnitsInit)
        ensures
            state.next == 0,
    {
        UnitsInit { next: 0 }
    }

    /// What stands in a column of the row of a spelling.
    pub fn cell(row: &UnitRow, column: u64) -> (cell: Cell)
        requires
            column < 8,
        ensures
            cell@ == unit_cell_of(row@, column),
    {
        match column {
            0 => text_cell(row.spelling.as_str()),
            1 => text_cell(row.canonical.as_str()),
            2 => Cell::Flag(row.is_canonical),
            3 => text_cell(row.dimension.as_str()),
            4 => text_cell(row.base_unit.as_str()),
            5 => Cell::Number(row.factor),
            6 => Cell::Number(row.offset),
            _ => Cell::Flag(row.is_convertible),
        }
    }
}

impl UnitsInit {
    /// The rows to hand out next, if any are left. Each call moves on by a whole page, around
    /// zero where the counter ends.
    pub fn next_page(&mut self, total: usize) -> (rows: Option<(usize, usize)>)
        ensures
            rows == page_of(old(self).next, total),
            final(self).next == (if old(self).next + 2048 <= usize::MAX {
                old(self).next + 2048
            } else {
                old(self).next + 2048 - usize::MAX - 1
            }),
    {
        let rows = page(self.next, total);
        self.next = self.next.wrapping_add(2048);
        rows
    }
}

/// The values of rows, or what is wrong with the first row from the `i`-th on that has none.
pub open spec fn first_failure(rows: Seq<Result<u64, String>>, i: int) -> Option<Seq<char>>
    decreases rows.len() - i,
{
    if i < 0 || i >= rows.len() {
        None
    } else {
        match rows[i] {
            Err(message) => Some(message@),
            Ok(_) => first_failure(rows, i + 1),
        }
    }
}

impl ConvertScalar {
    /// The values of a column that was converted row by row. A row that could not be converted
    /// makes the whole column fail, with its own message: there is no number to put there.
    pub fn invoke(rows: &Vec<Result<u64, String>>) -> (values: Result<Vec<u64>, String>)
        ensures
            match values {
                Ok(values) => first_failure(rows@, 0) is None && values@.len() == rows@.len()
                    && forall|i: int|
                    0 <= i < rows@.len() ==> rows@[i] == Ok::<u64, String>(#[trigger] values@[i]),
                Err(message) => first_failure(rows@, 0) == Some(message@),
            },
    {
        let mut values: Vec<u64> = Vec::new();
        let mut i: usize = 0;
        while i < rows.len()
            invariant
                i <= rows@.len(),
                values@.len() == i,
                first_failure(rows@, 0) == first_failure(rows@, i as int),
                forall|k: int|
                    0 <= k < i ==> rows@[k] == Ok::<u64, String>(#[trigger] values@[k]),
            decreases rows@.len() - i,
        {
            match &rows[i] {
                Ok(value) => values.push(*value),
                Err(message) => return Err(message.clone()),
            }
            i = i + 1;
        }
        Ok(values)
    }

    /// The kinds of the arguments: a value, the unit it has and the unit that is wanted.
    pub fn arguments() -> (kinds: Vec<ColumnKind>)
        ensures
            kinds@ == seq![ColumnKind::Double, ColumnKind::Varchar, ColumnKind::Varchar],
    {
        let mut kinds: Vec<ColumnKind> = Vec::new();
        kinds.push(ColumnKind::Double);
        kinds.push(ColumnKind::Varchar);
        kinds.push(ColumnKind::Varchar);
        kinds
    }

    /// The kind of the result.
    pub fn result() -> (kind: ColumnKind)
        ensures
            kind is Double,
    {
        ColumnKind::Double
    }
}

impl CanConvertScalar {
    /// The kinds of the arguments: two units.
    pub fn arguments() -> (kinds: Vec<ColumnKind>)
        ensures
            kinds@ == seq![ColumnKind::Varchar, ColumnKind::Varchar],
    {
        let mut kinds: Vec<ColumnKind> = Vec::new();
        kinds.push(ColumnKind::Varchar);
        kinds.push(ColumnKind::Varchar);
        kinds
    }

    /// The kind of the result.
    pub fn result() -> (kind: ColumnKind)
        ensures
            kind is Boolean,
    {
        ColumnKind::Boolean
    }
}

/// The name of the type of a column whose values have a unit.
pub open spec fn tag_of(unit: Seq<char>) -> Seq<char> {
    "telemetry_unit:"@ + unit
}

/// The unit that a type names, if it names one.
pub open spec fn tagged_unit(name: Seq<char>) -> Option<Seq<char>> {
    let mark = "telemetry_unit:"@;
    if occurs_at(name, mark, 0) && name.len() > mark.len() {
        Some(name.skip(mark.len() as int))
    } else {
        None
    }
}

/// The name of a type names the unit that it was made from.
pub proof fn law_tags_name_their_unit(unit: Seq<char>)
    requires
        unit.len() > 0,
    ensures
        tagged_unit(tag_of(unit)) == Some(unit),
{
    let mark = "telemetry_unit:"@;
    let name = tag_of(unit);
    assert(name.subrange(0, mark.len() as int) =~= mark);
    assert(name.skip(mark.len() as int) =~= unit);
}

/// The name of the type of a column whose values have a unit.
pub fn unit_tag_name(unit: &str) -> (name: String)
    ensures
        name@ == tag_of(unit@),
{
    let mut name = "telemetry_unit:".to_owned();
    name.append(unit);
    name
}

impl ConvertColumnScalar {
    /// The unit of a column, from the name of its type. A column whose type names none cannot be
    /// converted without saying which unit it has.
    pub fn source_unit(name: Option<&str>) -> (unit: Result<String, String>)
        ensures
            ({
                let tagged = match name {
                    Some(name) => tagged_unit(name@),
                    None => None,
                };
                match unit {
                    Ok(unit) => tagged == Some(unit@),
                    Err(message) => tagged is None && message@
                        == "telemetry_convert_column requires a unit-tagged column; for a scalar or expression use telemetry_convert(value, from_unit, to_unit)"@,
                }
            }),
    {
        if let Some(name) = name {
            let chars = chars_of(name);
            let mark = chars_of("telemetry_unit:");
            if chars.len() > mark.len() && matches_at(&chars, &mark, 0) {
                return Ok(string_of(&chars, mark.len(), chars.len()));
            }
        }
        Err(
            "telemetry_convert_column requires a unit-tagged column; for a scalar or expression use telemetry_convert(value, from_unit, to_unit)".to_owned(),
        )
    }
}

/// The table of units has a row for every spelling of every unit, with that unit's canonical
/// spelling.
pub proof fn law_every_spelling_has_a_row(defs: Seq<UnitDef>, unit: int, alias: int)
    requires
        0 <= unit < defs.len(),
    ensures
        registry_rows(defs).contains(row_for(defs[unit], defs[unit].canonical@, true)),
        0 <= alias < defs[unit].aliases@.len() ==> registry_rows(defs).contains(
            row_for(defs[unit], defs[unit].aliases@[alias]@, false),
        ),
    decreases defs.len(),
{
    let front = registry_rows(defs.drop_last());
    let own = rows_for(defs.last());
    let all = registry_rows(defs);
    assert(all == front + own);
    if unit == defs.len() - 1 {
        assert(all[front.len() as int] == own[0]);
        if 0 <= alias < defs[unit].aliases@.len() {
            assert(all[front.len() + 1 + alias] == own[1 + alias]);
        }
    } else {
        law_every_spelling_has_a_row(defs.drop_last(), unit, alias);
        let canonical = row_for(defs[unit], defs[unit].canonical@, true);
        let i = choose|i: int| 0 <= i < front.len() && front[i] == canonical;
        assert(all[i] == canonical);
        if 0 <= alias < defs[unit].aliases@.len() {
            let other = row_for(defs[unit], defs[unit].aliases@[alias]@, false);
            let k = choose|k: int| 0 <= k < front.len() && front[k] == other;
            assert(all[k] == other);
        }
    }
}

} // verus!

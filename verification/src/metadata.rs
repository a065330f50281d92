//! Summaries of files and of sessions.
use crate::cell::{
    optional_text_cell, optional_unsigned_cell, text_cell, text_or_null, unsigned_or_null, Cell,
    CellModel,
};
use crate::text::{join, join_all, optional_text, signed_decimal, signed_decimal_text, texts};
use vstd::prelude::*;

verus! {

/// A lap.
#[derive(Debug, Clone, Copy, PartialEq, Eq, Structural)]
pub struct Lap {
    pub number: i64,
    pub duration_ns: u64,
}

/// Who drove what, where and when.
#[derive(Debug)]
pub struct Identity {
    pub driver: String,
    pub vehicle: String,
    pub venue: String,
    pub event: String,
    pub session: String,
    pub date: String,
    pub time: String,
}

/// A summary of a file.
#[derive(Debug)]
pub struct FileMetadata {
    pub path: String,
    pub format: String,
    pub session_key: Option<String>,
    pub absolute_start_ns: Option<u64>,
    pub absolute_end_ns: Option<u64>,
    pub duration_ns: u64,
    pub channel_count: u64,
    pub sampled_channel_count: u64,
    pub sample_count: u64,
    pub schema_hash: u64,
    pub driver_ids: Vec<i64>,
    pub lap_count: u64,
    pub fastest_lap: Option<Lap>,
    pub video_frame_count: Option<u64>,
    pub identity: Identity,
    pub absolute_clock: Option<String>,
}

/// A summary of a session. Its files are given by their places among all.
#[derive(Debug)]
pub struct SessionMetadata {
    pub session_key: String,
    pub files: Vec<usize>,
    pub absolute_start_ns: Option<u64>,
    pub absolute_end_ns: Option<u64>,
    pub duration_ns: u64,
    pub stint_count: u64,
    pub lap_count: u64,
    pub fastest_lap: Option<Lap>,
}

/// Numbers in decimal notation.
pub open spec fn in_decimal(ids: Seq<i64>) -> Seq<Seq<char>> {
    Seq::new(ids.len(), |i: int| signed_decimal(ids[i] as int))
}

/// A list of numbers, separated by commas.
pub open spec fn listed(ids: Seq<i64>) -> Seq<char> {
    join(in_decimal(ids), seq![','])
}

/// An increasing list with one more number in its place, unless it is there already.
pub open spec fn with_id(ids: Seq<i64>, id: i64) -> Seq<i64>
    decreases ids.len(),
{
    if ids.len() == 0 || ids.last() < id {
        ids.push(id)
    } else if ids.last() == id {
        ids
    } else {
        with_id(ids.drop_last(), id).push(ids.last())
    }
}

/// An increasing list with more numbers in their places.
pub open spec fn with_ids(ids: Seq<i64>, more: Seq<i64>) -> Seq<i64>
    decreases more.len(),
{
    if more.len() == 0 {
        ids
    } else {
        with_id(with_ids(ids, more.drop_last()), more.last())
    }
}

/// The drivers of some files, each once and in order.
pub open spec fn drivers_of(files: Seq<FileMetadata>, members: Seq<usize>) -> Seq<i64>
    decreases members.len(),
{
    if members.len() == 0 {
        Seq::empty()
    } else {
        with_ids(
            drivers_of(files, members.drop_last()),
            files[members.last() as int].driver_ids@,
        )
    }
}

/// Whether each number is larger than the one before it.
pub open spec fn increasing(ids: Seq<i64>) -> bool {
    forall|i: int, j: int| 0 <= i < j < ids.len() ==> #[trigger] ids[i] < #[trigger] ids[j]
}

proof fn lemma_with_id(ids: Seq<i64>, id: i64)
    requires
        increasing(ids),
    ensures
        increasing(with_id(ids, id)),
        forall|x: i64| #[trigger] with_id(ids, id).contains(x) <==> x == id || ids.contains(x),
    decreases ids.len(),
{
    let all = with_id(ids, id);
    if ids.len() == 0 || ids.last() < id {
        assert(all == ids.push(id));
        assert forall|x: i64| #[trigger] all.contains(x) <==> x == id || ids.contains(x) by {
            assert(all[ids.len() as int] == id);
            if ids.contains(x) {
                let k = choose|k: int| 0 <= k < ids.len() && ids[k] == x;
                assert(all[k] == x);
            }
            if all.contains(x) && x != id {
                let k = choose|k: int| 0 <= k < all.len() && all[k] == x;
                assert(ids[k] == x);
            }
        }
        assert forall|i: int, j: int| 0 <= i < j < all.len() implies #[trigger] all[i]
            < #[trigger] all[j] by {
            if j == ids.len() {
                assert(ids[i] <= ids[ids.len() - 1]);
            }
        }
    } else if ids.last() == id {
        assert(ids[ids.len() - 1] == id);
    } else {
        let front = ids.drop_last();
        let inner = with_id(front, id);
        assert(increasing(front));
        lemma_with_id(front, id);
        assert forall|x: i64| #[trigger] inner.contains(x) implies x < ids.last() by {
            if x != id {
                let k = choose|k: int| 0 <= k < front.len() && front[k] == x;
                assert(ids[k] == x);
                assert(ids[k] < ids[ids.len() - 1]);
            }
        }
        assert forall|i: int, j: int| 0 <= i < j < all.len() implies #[trigger] all[i]
            < #[trigger] all[j] by {
            assert(all[i] == inner[i]);
            assert(inner.contains(inner[i]));
            if j < inner.len() {
                assert(all[j] == inner[j]);
            }
        }
        assert forall|x: i64| #[trigger] all.contains(x) <==> x == id || ids.contains(x) by {
            if all.contains(x) {
                let k = choose|k: int| 0 <= k < all.len() && all[k] == x;
                if k < inner.len() {
                    assert(inner[k] == x);
                    assert(inner.contains(x));
                    if x != id {
                        let m = choose|m: int| 0 <= m < front.len() && front[m] == x;
                        assert(ids[m] == x);
                    }
                } else {
                    assert(ids[ids.len() - 1] == x);
                }
            }
            if x == id || ids.contains(x) {
                if x == ids.last() {
                    assert(all[all.len() - 1] == x);
                } else {
                    if x != id {
                        let m = choose|m: int| 0 <= m < ids.len() && ids[m] == x;
                        assert(front[m] == x);
                    }
                    assert(inner.contains(x));
                    let k = choose|k: int| 0 <= k < inner.len() && inner[k] == x;
                    assert(all[k] == x);
                }
            }
        }
    }
}

proof fn lemma_with_ids(ids: Seq<i64>, more: Seq<i64>)
    requires
        increasing(ids),
    ensures
        increasing(with_ids(ids, more)),
        forall|x: i64| #[trigger]
            with_ids(ids, more).contains(x) <==> ids.contains(x) || more.contains(x),
    decreases more.len(),
{
    if more.len() > 0 {
        let front = more.drop_last();
        lemma_with_ids(ids, front);
        lemma_with_id(with_ids(ids, front), more.last());
        assert forall|x: i64| #[trigger]
            with_ids(ids, more).contains(x) <==> ids.contains(x) || more.contains(x) by {
            assert(with_ids(ids, front).contains(x) <==> ids.contains(x) || front.contains(x));
            if front.contains(x) {
                let k = choose|k: int| 0 <= k < front.len() && front[k] == x;
                assert(more[k] == x);
            }
            if more.contains(x) && x != more.last() {
                let k = choose|k: int| 0 <= k < more.len() && more[k] == x;
                assert(front[k] == x);
            }
            assert(more[more.len() - 1] == more.last());
        }
    }
}

/// The drivers of a session are those of its files, each once and in increasing order.
pub proof fn law_drivers_of_a_session(files: Seq<FileMetadata>, members: Seq<usize>, id: i64)
    ensures
        increasing(drivers_of(files, members)),
        drivers_of(files, members).contains(id) <==> exists|i: int|
            0 <= i < members.len() && files[(#[trigger] members[i]) as int].driver_ids@.contains(
                id,
            ),
    decreases members.len(),
{
    if members.len() > 0 {
        let front = members.drop_last();
        law_drivers_of_a_session(files, front, id);
        lemma_with_ids(drivers_of(files, front), files[members.last() as int].driver_ids@);
        if exists|i: int|
            0 <= i < front.len() && files[(#[trigger] front[i]) as int].driver_ids@.contains(id) {
            let i = choose|i: int|
                0 <= i < front.len() && files[(#[trigger] front[i]) as int].driver_ids@.contains(
                    id,
                );
            assert(members[i] == front[i]);
        }
        if exists|i: int|
            0 <= i < members.len() && files[(#[trigger] members[i]) as int].driver_ids@.contains(
                id,
            ) {
            let i = choose|i: int|
                0 <= i < members.len() && files[(
                #[trigger] members[i]) as int].driver_ids@.contains(id);
            if i < front.len() {
                assert(front[i] == members[i]);
            }
        }
        if files[members.last() as int].driver_ids@.contains(id) {
            assert(members[members.len() - 1] == members.last());
        }
    }
}

/// A list of numbers, separated by commas.
fn list_ids(ids: &Vec<i64>) -> (text: String)
    ensures
        text@ == listed(ids@),
{
    let mut parts: Vec<String> = Vec::new();
    let mut i: usize = 0;
    while i < ids.len()
        invariant
            i <= ids@.len(),
            texts(parts@) == in_decimal(ids@.take(i as int)),
        decreases ids@.len() - i,
    {
        let ghost before = parts@;
        let part = signed_decimal_text(ids[i]);
        parts.push(part);
        assert(texts(parts@) =~= texts(before).push(part@));
        assert(in_decimal(ids@.take(i + 1)) =~= in_decimal(ids@.take(i as int)).push(part@));
        i = i + 1;
    }
    proof {
        assert(ids@.take(i as int) =~= ids@);
        reveal_strlit(",");
        assert(","@ =~= seq![',']);
    }
    join_all(&parts, ",")
}

/// Puts a number in its place in an increasing list, unless it is there already.
fn insert_id(ids: &mut Vec<i64>, id: i64)
    ensures
        final(ids)@ == with_id(old(ids)@, id),
{
    let ghost before = ids@;
    let mut at: usize = ids.len();
    assert(before.take(at as int) =~= before);
    assert(with_id(before, id) =~= with_id(before.take(at as int), id) + before.skip(at as int));
    while at > 0 && ids[at - 1] > id
        invariant
            at <= ids@.len(),
            before == ids@,
            with_id(before, id) == with_id(before.take(at as int), id) + before.skip(at as int),
        decreases at,
    {
        proof {
            let front = before.take(at as int);
            assert(front.drop_last() =~= before.take(at - 1));
            assert(front.last() == before[at - 1]);
            assert(with_id(before.take(at - 1), id).push(front.last()) + before.skip(at as int)
                =~= with_id(before.take(at - 1), id) + before.skip(at - 1));
        }
        at = at - 1;
    }
    assert(at > 0 ==> before.take(at as int).last() == before[at - 1]);
    if at > 0 && ids[at - 1] == id {
        assert(before =~= before.take(at as int) + before.skip(at as int));
        return;
    }
    ids.insert(at, id);
    assert(ids@ =~= before.take(at as int).push(id) + before.skip(at as int));
}

/// The drivers of some files, each once and in order.
fn collect_drivers(files: &Vec<FileMetadata>, members: &Vec<usize>) -> (ids: Vec<i64>)
    requires
        forall|i: int| 0 <= i < members@.len() ==> #[trigger] members@[i] < files@.len(),
    ensures
        ids@ == drivers_of(files@, members@),
{
    let mut ids: Vec<i64> = Vec::new();
    let mut i: usize = 0;
    assert(ids@ =~= drivers_of(files@, members@.take(0)));
    while i < members.len()
        invariant
            i <= members@.len(),
            forall|i: int| 0 <= i < members@.len() ==> #[trigger] members@[i] < files@.len(),
            ids@ == drivers_of(files@, members@.take(i as int)),
        decreases members@.len() - i,
    {
        assert(members@.take(i + 1).drop_last() =~= members@.take(i as int));
        let more = &files[members[i]].driver_ids;
        let ghost before = ids@;
        let mut k: usize = 0;
        assert(with_ids(before, more@.take(0)) == before);
        while k < more.len()
            invariant
                k <= more@.len(),
                ids@ == with_ids(before, more@.take(k as int)),
            decreases more@.len() - k,
        {
            assert(more@.take(k + 1).drop_last() =~= more@.take(k as int));
            insert_id(&mut ids, more[k]);
            k = k + 1;
        }
        assert(more@.take(k as int) =~= more@);
        i = i + 1;
    }
    assert(members@.take(i as int) =~= members@);
    ids
}

/// What stands in a column of the row of a file.
pub open spec fn file_cell_of(file: FileMetadata, column: u64) -> CellModel {
    if column == 0 {
        CellModel::Text(file.path@)
    } else if column == 1 {
        CellModel::Text(file.format@)
    } else if column == 2 {
        text_or_null(optional_text(file.session_key))
    } else if column == 3 {
        unsigned_or_null(file.absolute_start_ns)
    } else if column == 4 {
        unsigned_or_null(file.absolute_end_ns)
    } else if column == 5 {
        CellModel::Unsigned(file.duration_ns)
    } else if column == 6 {
        CellModel::Unsigned(file.channel_count)
    } else if column == 7 {
        CellModel::Unsigned(file.sampled_channel_count)
    } else if column == 8 {
        CellModel::Unsigned(file.sample_count)
    } else if column == 9 {
        CellModel::Unsigned(file.schema_hash)
    } else if column == 10 {
        CellModel::Text(listed(file.driver_ids@))
    } else if column == 11 {
        CellModel::Unsigned(file.lap_count)
    } else if column == 12 {
        match file.fastest_lap {
            Some(lap) => CellModel::Signed(lap.number),
            None => CellModel::Null,
        }
    } else if column == 13 {
        match file.fastest_lap {
            Some(lap) => CellModel::Unsigned(lap.duration_ns),
            None => CellModel::Null,
        }
    } else if column == 14 {
        unsigned_or_null(file.video_frame_count)
    } else if column == 15 {
        CellModel::Text(file.identity.driver@)
    } else if column == 16 {
        CellModel::Text(file.identity.vehicle@)
    } else if column == 17 {
        CellModel::Text(file.identity.venue@)
    } else if column == 18 {
        CellModel::Text(file.identity.event@)
    } else if column == 19 {
        CellModel::Text(file.identity.session@)
    } else if column == 20 {
        CellModel::Text(file.identity.date@)
    } else if column == 21 {
        CellModel::Text(file.identity.time@)
    } else {
        text_or_null(optional_text(file.absolute_clock))
    }
}

/// What stands in a column of the row of a file.
pub fn file_cell(file: &FileMetadata, column: u64) -> (cell: Cell)
    requires
        column < 23,
    ensures
        cell@ == file_cell_of(*file, column),
{
    match column {
        0 => text_cell(file.path.as_str()),
        1 => text_cell(file.format.as_str()),
        2 => optional_text_cell(&file.session_key),
        3 => optional_unsigned_cell(file.absolute_start_ns),
        4 => optional_unsigned_cell(file.absolute_end_ns),
        5 => Cell::Unsigned(file.duration_ns),
        6 => Cell::Unsigned(file.channel_count),
        7 => Cell::Unsigned(file.sampled_channel_count),
        8 => Cell::Unsigned(file.sample_count),
        9 => Cell::Unsigned(file.schema_hash),
        10 => Cell::Text(list_ids(&file.driver_ids)),
        11 => Cell::Unsigned(file.lap_count),
        12 => match file.fastest_lap {
            Some(lap) => Cell::Signed(lap.number),
            None => Cell::Null,
        },
        13 => match file.fastest_lap {
            Some(lap) => Cell::Unsigned(lap.duration_ns),
            None => Cell::Null,
        },
        14 => optional_unsigned_cell(file.video_frame_count),
        15 => text_cell(file.identity.driver.as_str()),
        16 => text_cell(file.identity.vehicle.as_str()),
        17 => text_cell(file.identity.venue.as_str()),
        18 => text_cell(file.identity.event.as_str()),
        19 => text_cell(file.identity.session.as_str()),
        20 => text_cell(file.identity.date.as_str()),
        21 => text_cell(file.identity.time.as_str()),
        _ => optional_text_cell(&file.absolute_clock),
    }
}

/// What stands in a column of the row of a session.
pub open spec fn session_cell_of(
    session: SessionMetadata,
    files: Seq<FileMetadata>,
    column: u64,
) -> CellModel {
    if column == 0 {
        CellModel::Text(session.session_key@)
    } else if column == 1 {
        CellModel::Unsigned(session.files@.len() as u64)
    } else if column == 2 {
        unsigned_or_null(session.absolute_start_ns)
    } else if column == 3 {
        unsigned_or_null(session.absolute_end_ns)
    } else if column == 4 {
        CellModel::Unsigned(session.duration_ns)
    } else if column == 5 {
        CellModel::Text(listed(drivers_of(files, session.files@)))
    } else if column == 6 {
        CellModel::Unsigned(session.stint_count)
    } else if column == 7 {
        CellModel::Unsigned(session.lap_count)
    } else if column == 8 {
        match session.fastest_lap {
            Some(lap) => CellModel::Signed(lap.number),
            None => CellModel::Null,
        }
    } else {
        match session.fastest_lap {
            Some(lap) => CellModel::Unsigned(lap.duration_ns),
            None => CellModel::Null,
        }
    }
}

/// What stands in a column of the row of a session.
pub fn session_cell(session: &SessionMetadata, files: &Vec<FileMetadata>, column: u64) -> (cell:
    Cell)
    requires
        column < 10,
        forall|i: int|
            0 <= i < session.files@.len() ==> #[trigger] session.files@[i] < files@.len(),
    ensures
        cell@ == session_cell_of(*session, files@, column),
{
    match column {
        0 => text_cell(session.session_key.as_str()),
        1 => Cell::Unsigned(session.files.len() as u64),
        2 => optional_unsigned_cell(session.absolute_start_ns),
        3 => optional_unsigned_cell(session.absolute_end_ns),
        4 => Cell::Unsigned(session.duration_ns),
        5 => {
            let ids = collect_drivers(files, &session.files);
            Cell::Text(list_ids(&ids))
        },
        6 => Cell::Unsigned(session.stint_count),
        7 => Cell::Unsigned(session.lap_count),
        8 => match session.fastest_lap {
            Some(lap) => Cell::Signed(lap.number),
            None => Cell::Null,
        },
        _ => match session.fastest_lap {
            Some(lap) => Cell::Unsigned(lap.duration_ns),
            None => Cell::Null,
        },
    }
}

} // verus!

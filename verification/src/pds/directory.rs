//! The directory of a PDS file and the layout that it describes.
use crate::pds::bytes::{u32_at, u32le_or, u64_at};
use crate::pds::error::{invalid, PdsError};
use vstd::prelude::*;

verus! {

/// One record of the directory.
#[derive(Debug, Clone, Copy, PartialEq, Eq, Structural)]
pub struct DirEntry {
    pub offset: u64,
    pub count: u32,
    pub class_b: u32,
    pub next_count: u32,
}

/// Where the channel definitions and the chunk table of a file stand.
#[derive(Debug, Clone, Copy, PartialEq, Eq, Structural)]
pub struct Layout {
    pub defs_offset: usize,
    pub defs_count: usize,
    pub chunk_offset: usize,
    pub next_offset: usize,
    pub chunk_count: usize,
}

impl Layout {
    /// Definitions, chunk table and what follows it stand in this order inside the file, and
    /// the chunk table is made of whole records of a plausible width.
    pub open spec fn valid(self, file_size: int) -> bool {
        &&& self.defs_offset < self.chunk_offset < self.next_offset <= file_size
        &&& self.defs_count > 0
        &&& self.chunk_count > 0
        &&& plausible(self.next_offset - self.chunk_offset, self.chunk_count as int)
    }
}

/// The directory record at a position that has 32 bytes.
pub open spec fn entry_at(data: Seq<u8>, base: int) -> DirEntry {
    DirEntry {
        offset: u64_at(data, base)->0,
        count: u32_at(data, base + 8)->0,
        class_b: u32_at(data, base + 0x14)->0,
        next_count: u32_at(data, base + 0x18)->0,
    }
}

/// The number of directory records from `start` on: twenty, or as many as the bytes hold.
pub open spec fn entry_count(size: int, start: int) -> int {
    if size < start + 32 {
        0
    } else if size >= start + 20 * 32 {
        20
    } else {
        (size - start) / 32
    }
}

/// The directory records from `start` on.
pub open spec fn entries_at(data: Seq<u8>, start: int) -> Seq<DirEntry> {
    Seq::new(entry_count(data.len() as int, start) as nat, |i: int| entry_at(data, start + 32 * i))
}

/// How well a record fits a directory: its class is known and its offset lies in the file.
pub open spec fn entry_score(entry: DirEntry, size: int) -> int {
    if entry.class_b <= 3 && 0 < entry.offset < size {
        2
    } else if entry.class_b <= 3 {
        1
    } else {
        0
    }
}

/// How well records fit a directory.
pub open spec fn score(entries: Seq<DirEntry>, size: int) -> int
    decreases entries.len(),
{
    if entries.len() == 0 {
        0
    } else {
        score(entries.drop_last(), size) + entry_score(entries.last(), size)
    }
}

/// The positions at which a directory may start, from 0x80 down to 0x40.
pub open spec fn start_position(k: int) -> int {
    0x80 - 8 * k
}

/// The score of the records at the `k`-th start position.
pub open spec fn start_score(data: Seq<u8>, k: int) -> int {
    score(entries_at(data, start_position(k)), data.len() as int)
}

/// The first of the best among the first `n` start positions.
pub open spec fn best_start(data: Seq<u8>, n: int) -> int
    decreases n,
{
    if n <= 1 {
        0
    } else {
        let best = best_start(data, n - 1);
        if start_score(data, n - 1) > start_score(data, best) {
            n - 1
        } else {
            best
        }
    }
}

/// The directory of a file.
pub open spec fn directory(data: Seq<u8>) -> Seq<DirEntry> {
    entries_at(data, start_position(best_start(data, 9)))
}

/// The directory is read at the start position with the highest score, and at the earliest
/// tried of those that share it.
pub proof fn law_directory_is_the_first_best(data: Seq<u8>)
    ensures
        0 <= best_start(data, 9) < 9,
        forall|k: int|
            0 <= k < 9 ==> #[trigger] start_score(data, k) <= start_score(
                data,
                best_start(data, 9),
            ),
        forall|k: int|
            0 <= k < best_start(data, 9) ==> #[trigger] start_score(data, k) < start_score(
                data,
                best_start(data, 9),
            ),
{
    lemma_best_start(data, 9);
}

proof fn lemma_best_start(data: Seq<u8>, n: int)
    requires
        1 <= n,
    ensures
        0 <= best_start(data, n) < n,
        forall|k: int|
            0 <= k < n ==> #[trigger] start_score(data, k) <= start_score(
                data,
                best_start(data, n),
            ),
        forall|k: int|
            0 <= k < best_start(data, n) ==> #[trigger] start_score(data, k) < start_score(
                data,
                best_start(data, n),
            ),
    decreases n,
{
    if n > 1 {
        lemma_best_start(data, n - 1);
    }
}

/// Whether a table of the given size can have that many records.
pub open spec fn plausible(span: int, count: int) -> bool {
    count > 0 && span % count == 0 && 48 <= span / count <= 512
}

/// The layout that three consecutive directory records describe.
pub open spec fn layout_of(
    defs: DirEntry,
    chunks: DirEntry,
    next: DirEntry,
    size: int,
) -> Option<Layout> {
    let span = next.offset - chunks.offset;
    if !(defs.offset < chunks.offset < next.offset <= size) || defs.class_b != 1 || defs.count
        == 0 {
        None
    } else if plausible(span, defs.next_count as int) {
        Some(layout_with(defs, chunks, next, defs.next_count as int))
    } else if plausible(span, chunks.count as int) {
        Some(layout_with(defs, chunks, next, chunks.count as int))
    } else {
        None
    }
}

/// The layout with a chunk table of the given number of records.
pub open spec fn layout_with(
    defs: DirEntry,
    chunks: DirEntry,
    next: DirEntry,
    chunk_count: int,
) -> Layout {
    Layout {
        defs_offset: defs.offset as usize,
        defs_count: defs.count as usize,
        chunk_offset: chunks.offset as usize,
        next_offset: next.offset as usize,
        chunk_count: chunk_count as usize,
    }
}

/// The layout that the first fitting three records from the `i`-th on describe.
pub open spec fn layout_from(entries: Seq<DirEntry>, i: int, size: int) -> Option<Layout>
    decreases entries.len() - i,
{
    if i < 0 || i + 2 >= entries.len() {
        None
    } else {
        match layout_of(entries[i], entries[i + 1], entries[i + 2], size) {
            Some(layout) => Some(layout),
            None => layout_from(entries, i + 1, size),
        }
    }
}

/// Every layout found is valid for the file.
pub proof fn lemma_layout_valid(entries: Seq<DirEntry>, i: int, size: usize)
    ensures
        layout_from(entries, i, size as int) matches Some(layout) ==> layout.valid(size as int),
    decreases entries.len() - i,
{
    if 0 <= i && i + 2 < entries.len() {
        lemma_layout_valid(entries, i + 1, size);
    }
}

/// Reads up to twenty directory records from `start` on.
pub fn read_entries_at(data: &[u8], start: usize) -> (entries: Vec<DirEntry>)
    ensures
        entries@ == entries_at(data@, start as int),
{
    let mut entries: Vec<DirEntry> = Vec::new();
    let mut base: usize = start;
    let mut i: usize = 0;
    let size: usize = data.len();
    while i < 20 && base <= size && size - base >= 32
        invariant
            size == data@.len(),
            i <= 20,
            i == 0 ==> base == start,
            i > 0 ==> base == start + 32 * i && base <= size,
            i <= entry_count(size as int, start as int),
            entries@ == entries_at(data@, start as int).take(i as int),
        decreases 20 - i,
    {
        let low: u32 = u32le_or(data, base, 0);
        let high: u32 = u32le_or(data, base + 4, 0);
        entries.push(
            DirEntry {
                offset: low as u64 + 0x1_0000_0000 * (high as u64),
                count: u32le_or(data, base + 8, 0),
                class_b: u32le_or(data, base + 0x14, 0),
                next_count: u32le_or(data, base + 0x18, 0),
            },
        );
        base = base + 32;
        i = i + 1;
    }
    assert(entries@ =~= entries_at(data@, start as int));
    entries
}

/// How well records fit a directory of a file of the given size.
fn score_entries(entries: &Vec<DirEntry>, size: usize) -> (total: i32)
    requires
        entries@.len() <= 20,
    ensures
        total == score(entries@, size as int),
{
    let mut total: i32 = 0;
    let mut i: usize = 0;
    while i < entries.len()
        invariant
            i <= entries@.len() <= 20,
            0 <= total <= 2 * i,
            total == score(entries@.take(i as int), size as int),
        decreases entries@.len() - i,
    {
        assert(entries@.take(i + 1).drop_last() =~= entries@.take(i as int));
        let entry: DirEntry = entries[i];
        if entry.class_b <= 3 && entry.offset > 0 && entry.offset < size as u64 {
            total = total + 2;
        } else if entry.class_b <= 3 {
            total = total + 1;
        }
        i = i + 1;
    }
    assert(entries@.take(i as int) =~= entries@);
    total
}

/// Finds the directory of a file.
pub fn find_directory(data: &[u8]) -> (entries: Vec<DirEntry>)
    ensures
        entries@ == directory(data@),
{
    let mut best: Vec<DirEntry> = read_entries_at(data, 0x80);
    let mut best_score: i32 = score_entries(&best, data.len());
    let mut k: usize = 1;
    while k < 9
        invariant
            1 <= k <= 9,
            best@ == entries_at(data@, start_position(best_start(data@, k as int))),
            best_score == start_score(data@, best_start(data@, k as int)),
        decreases 9 - k,
    {
        let entries = read_entries_at(data, 0x80 - 8 * k);
        let entries_score: i32 = score_entries(&entries, data.len());
        if entries_score > best_score {
            best = entries;
            best_score = entries_score;
        }
        k = k + 1;
    }
    best
}

/// Whether a table of the given size can have that many records.
fn is_plausible(span: usize, count: u32) -> (fits: bool)
    ensures
        fits == plausible(span as int, count as int),
{
    if count == 0 || span % (count as usize) != 0 {
        return false;
    }
    let width: usize = span / (count as usize);
    48 <= width && width <= 512
}

/// Finds the layout of a file of the given size in its directory.
pub fn find_layout(entries: &[DirEntry], file_size: usize, path: &str) -> (found: Result<
    Layout,
    PdsError,
>)
    ensures
        match found {
            Ok(layout) => layout_from(entries@, 0, file_size as int) == Some(layout)
                && layout.valid(file_size as int),
            Err(error) => layout_from(entries@, 0, file_size as int) is None && error.says_invalid(
                path@,
                "no valid definitions/chunk layout found"@,
            ),
        },
{
    proof {
        lemma_layout_valid(entries@, 0, file_size);
    }
    let mut i: usize = 0;
    let total: usize = entries.len();
    while i < total && total - i > 2
        invariant
            i <= total,
            total == entries@.len(),
            layout_from(entries@, 0, file_size as int) == layout_from(
                entries@,
                i as int,
                file_size as int,
            ),
        decreases total - i,
    {
        let defs: DirEntry = entries[i];
        let chunks: DirEntry = entries[i + 1];
        let next: DirEntry = entries[i + 2];
        if defs.offset < chunks.offset && chunks.offset < next.offset && next.offset
            <= file_size as u64 && defs.class_b == 1 && defs.count != 0 {
            let span: usize = (next.offset - chunks.offset) as usize;
            let count: Option<u32> = if is_plausible(span, defs.next_count) {
                Some(defs.next_count)
            } else if is_plausible(span, chunks.count) {
                Some(chunks.count)
            } else {
                None
            };
            if let Some(count) = count {
                return Ok(
                    Layout {
                        defs_offset: defs.offset as usize,
                        defs_count: defs.count as usize,
                        chunk_offset: chunks.offset as usize,
                        next_offset: next.offset as usize,
                        chunk_count: count as usize,
                    },
                );
            }
        }
        i = i + 1;
    }
    Err(invalid(path, "no valid definitions/chunk layout found"))
}

} // verus!

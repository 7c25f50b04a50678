//! The content section of a folder and the counters of a run.
//!
//! Each record becomes one block: a line that begins it and names the
//! path, the file's text or a placeholder in its place, and a line that
//! ends it and names the same path. The blocks follow one another in the
//! order of the records, which is walk order.

use vstd::prelude::*;
use vstd::string::StringExecFns;
use crate::ingest::{
    is_ordering, is_taken, next_action, places, record_of, record_views, FileRecord, IngestEvent,
    Outcome, OutcomeView, RecordView,
};
use crate::rules::Rules;
use crate::text::{decimal, push_decimal};
use crate::walk::{print_folder_structure, structure_section, Icons, WalkEntry};
use crate::FlattenConfig;

verus! {

/// What stands in the artifact for an outcome: the content itself, or a
/// placeholder in brackets.
pub open spec fn record_text(outcome: OutcomeView) -> Seq<char> {
    match outcome {
        OutcomeView::Content(text) => text,
        OutcomeView::TooLarge(size) => "[File too large: "@ + decimal(size as nat) + " bytes]"@,
        OutcomeView::Skipped(name) => "[Binary file skipped: "@ + name + "]"@,
        OutcomeView::ReadError(message) => "[Error reading file: "@ + message + "]"@,
    }
}

/// The line that begins the block of the file at `path`.
pub open spec fn begin_marker(path: Seq<char>) -> Seq<char> {
    "### "@ + path + " BEGIN ###\n"@
}

/// What ends the block of the file at `path`: a line break, the line that
/// names the path, and a blank line.
pub open spec fn end_marker(path: Seq<char>) -> Seq<char> {
    "\n### "@ + path + " END ###\n\n"@
}

/// The block of one record.
pub open spec fn block(record: RecordView) -> Seq<char> {
    begin_marker(record.path) + record_text(record.outcome) + end_marker(record.path)
}

/// The blocks of the first `n` records, one after the other.
pub open spec fn blocks(records: Seq<RecordView>, n: int) -> Seq<char>
    decreases n,
{
    if n <= 0 {
        Seq::empty()
    } else {
        blocks(records, n - 1) + block(records[n - 1])
    }
}

/// The line that opens and closes the content of a folder.
pub open spec fn content_marker(directory: Seq<char>) -> Seq<char> {
    "### DIRECTORY "@ + directory + " FLATTENED CONTENT ###\n"@
}

/// The content section of a folder: the blocks of its records between two
/// markers.
pub open spec fn content_section(directory: Seq<char>, records: Seq<RecordView>) -> Seq<char> {
    content_marker(directory) + blocks(records, records.len() as int) + content_marker(directory)
}

/// What a folder adds to the artifact: its structure section and, if it
/// has any listed file, its content section.
pub open spec fn folder_text(
    directory: Seq<char>,
    rules: Rules,
    icons: Icons,
    entries: Seq<WalkEntry>,
    records: Seq<RecordView>,
) -> Seq<char> {
    if records.len() == 0 {
        structure_section(directory, rules, icons, entries)
    } else {
        structure_section(directory, rules, icons, entries) + content_section(directory, records)
    }
}

/// The bytes that a record adds to the byte total: the size of a file
/// that was read, the true size of one that was too large, and nothing for
/// one that was skipped or could not be read.
pub open spec fn counted_bytes(record: RecordView) -> nat {
    match record.outcome {
        OutcomeView::Content(_) => record.size_bytes as nat,
        OutcomeView::TooLarge(size) => size as nat,
        _ => 0,
    }
}

/// The bytes that the first `n` records add to the byte total.
pub open spec fn sum_bytes(records: Seq<RecordView>, n: int) -> nat
    decreases n,
{
    if n <= 0 {
        0
    } else {
        sum_bytes(records, n - 1) + counted_bytes(records[n - 1])
    }
}

/// `n`, or `limit` if `n` is larger.
pub open spec fn at_most(n: int, limit: int) -> int {
    if n <= limit {
        n
    } else {
        limit
    }
}

/// The blocks grow record by record: the blocks of the first `i` records
/// are the beginning of the blocks of the first `n`.
pub proof fn lemma_blocks_prefix(records: Seq<RecordView>, i: int, n: int)
    requires
        0 <= i <= n,
    ensures
        blocks(records, i).len() <= blocks(records, n).len(),
        blocks(records, n).take(blocks(records, i).len() as int) == blocks(records, i),
    decreases n - i,
{
    let short = blocks(records, i);
    if i == n {
        assert(short.take(short.len() as int) =~= short);
    } else {
        lemma_blocks_prefix(records, i, n - 1);
        let before = blocks(records, n - 1);
        let full = blocks(records, n);
        assert(full.take(before.len() as int) =~= before);
    }
}

/// Every record has its own block, and the blocks stand in the order of
/// the records: the block of record `i` begins where the blocks of the
/// records before it end, and the next block begins where it ends. Within
/// it stand the line that begins it, then exactly the record's text, then
/// the line that ends it, and both lines name the record's path.
pub proof fn lemma_block_structure(records: Seq<RecordView>, i: int)
    requires
        0 <= i < records.len(),
    ensures
        ({
            let all = blocks(records, records.len() as int);
            let start = blocks(records, i).len() as int;
            let begin = begin_marker(records[i].path);
            let text = record_text(records[i].outcome);
            let end = end_marker(records[i].path);
            let text_at = start + begin.len();
            let end_at = text_at + text.len();
            &&& end_at + end.len() <= all.len()
            &&& all.subrange(start, text_at) == begin
            &&& all.subrange(text_at, end_at) == text
            &&& all.subrange(end_at, end_at + end.len()) == end
            &&& blocks(records, i + 1).len() == end_at + end.len()
        }),
{
    let all = blocks(records, records.len() as int);
    let before = blocks(records, i);
    let with_block = blocks(records, i + 1);
    let start = before.len() as int;
    let begin = begin_marker(records[i].path);
    let text = record_text(records[i].outcome);
    let end = end_marker(records[i].path);
    let text_at = start + begin.len();
    let end_at = text_at + text.len();
    assert(with_block == before + (begin + text + end));
    lemma_blocks_prefix(records, i + 1, records.len() as int);
    let cut = all.take(with_block.len() as int);
    assert(all.subrange(start, text_at) =~= cut.subrange(start, text_at));
    assert(all.subrange(text_at, end_at) =~= cut.subrange(text_at, end_at));
    assert(all.subrange(end_at, end_at + end.len()) =~= cut.subrange(end_at, end_at + end.len()));
}

/// Whether `records` are the records of `files`: one for each file, in
/// the same order, under the file's path.
pub open spec fn records_of_files(files: Seq<WalkEntry>, records: Seq<RecordView>) -> bool {
    files.len() == records.len() && forall|i: int|
        0 <= i < files.len() ==> (#[trigger] records[i]).path == files[i].path@
}

/// The content keeps the order of the walk, whatever the order in which
/// the files were read: of two listed files, the block of the one that the
/// walk came upon first stands first, it ends before the other begins, and
/// each block begins with the line that names its file.
pub proof fn lemma_content_keeps_walk_order(
    files: Seq<WalkEntry>,
    records: Seq<RecordView>,
    i: int,
    j: int,
)
    requires
        records_of_files(files, records),
        0 <= i < j < records.len(),
    ensures
        ({
            let all = blocks(records, records.len() as int);
            let first = blocks(records, i).len() as int;
            let second = blocks(records, j).len() as int;
            let first_begin = begin_marker(files[i].path@);
            let second_begin = begin_marker(files[j].path@);
            &&& first + block(records[i]).len() <= second
            &&& first < second
            &&& second + second_begin.len() <= all.len()
            &&& all.subrange(first, first + first_begin.len()) == first_begin
            &&& all.subrange(second, second + second_begin.len()) == second_begin
        }),
{
    lemma_block_structure(records, i);
    lemma_block_structure(records, j);
    lemma_blocks_prefix(records, i + 1, j);
    reveal_strlit("### ");
}

/// Records that were read in any order and put back by their tags are the
/// records of the files: when each record was tagged with the place of its
/// file among the listed files, the restored records stand in walk order.
pub proof fn lemma_restored_records_follow(
    files: Seq<WalkEntry>,
    completions: Seq<(usize, FileRecord)>,
    items: Seq<FileRecord>,
)
    requires
        completions.len() == files.len(),
        is_ordering(places(completions)),
        items.len() == completions.len(),
        forall|k: int|
            0 <= k < completions.len() ==> items[(#[trigger] completions[k]).0 as int]
                == completions[k].1,
        forall|k: int|
            0 <= k < completions.len() ==> (#[trigger] completions[k]).1.path@
                == files[completions[k].0 as int].path@,
    ensures
        records_of_files(files, record_views(items)),
{
    let tags = places(completions);
    assert forall|i: int| 0 <= i < files.len() implies (#[trigger] record_views(items)[i]).path
        == files[i].path@ by {
        assert(is_taken(tags, i));
        let k = choose|k: int| 0 <= k < tags.len() && #[trigger] tags[k] == i;
        assert(completions[k].0 == i);
    }
}

/// A file that is larger than a limit that is set is not read, and what
/// stands for it is the placeholder with its true size and nothing else.
pub proof fn lemma_size_cap(rules: Rules, e: WalkEntry, size: u64)
    requires
        rules.max_file_size > 0,
        size > rules.max_file_size,
    ensures
        next_action(rules, e, IngestEvent::Opened(size)) == record_of(
            e,
            size,
            OutcomeView::TooLarge(size),
        ),
        record_text(OutcomeView::TooLarge(size)) == "[File too large: "@ + decimal(size as nat)
            + " bytes]"@,
        counted_bytes(
            RecordView { path: e.path@, size_bytes: size, outcome: OutcomeView::TooLarge(size) },
        ) == size,
{
}

/// Appends to `out` what stands in the artifact for an outcome.
fn push_record_text(out: &mut String, outcome: &Outcome)
    ensures
        final(out)@ == old(out)@ + record_text(outcome@),
{
    match outcome {
        Outcome::Content(text) => {
            out.append(text.as_str());
        },
        Outcome::TooLarge(size) => {
            out.append("[File too large: ");
            push_decimal(out, *size);
            out.append(" bytes]");
        },
        Outcome::Skipped(name) => {
            out.append("[Binary file skipped: ");
            out.append(name.as_str());
            out.append("]");
        },
        Outcome::ReadError(message) => {
            out.append("[Error reading file: ");
            out.append(message.as_str());
            out.append("]");
        },
    }
}

/// Appends the block of one record to `out`.
fn push_block(out: &mut String, record: &FileRecord)
    ensures
        final(out)@ == old(out)@ + block(record@),
{
    out.append("### ");
    out.append(record.path.as_str());
    out.append(" BEGIN ###\n");
    push_record_text(out, &record.outcome);
    out.append("\n### ");
    out.append(record.path.as_str());
    out.append(" END ###\n\n");
}

/// Appends the marker of a folder's content to `out`.
fn push_content_marker(out: &mut String, directory: &str)
    ensures
        final(out)@ == old(out)@ + content_marker(directory@),
{
    out.append("### DIRECTORY ");
    out.append(directory);
    out.append(" FLATTENED CONTENT ###\n");
}

/// The content section of a folder, with one block for each record in the
/// order of the records.
pub fn emit_contents(directory: &str, records: &Vec<FileRecord>) -> (section: String)
    ensures
        section@ == content_section(directory@, record_views(records@)),
{
    let ghost views = record_views(records@);
    let mut out = String::new();
    push_content_marker(&mut out, directory);
    let mut i: usize = 0;
    assert(out@ =~= content_marker(directory@) + blocks(views, 0));
    while i < records.len()
        invariant
            i <= records.len(),
            views == record_views(records@),
            out@ == content_marker(directory@) + blocks(views, i as int),
        decreases records.len() - i,
    {
        push_block(&mut out, &records[i]);
        i += 1;
    }
    push_content_marker(&mut out, directory);
    out
}

/// What a folder adds to the artifact: its structure section and, if it
/// has any listed file, its content section. `entries` is the walk of the
/// folder and `records` are the records of its listed files.
pub fn flatten_folder(
    directory: &str,
    entries: &Vec<WalkEntry>,
    records: &Vec<FileRecord>,
    config: &FlattenConfig,
    icons: &Icons,
) -> (text: String)
    ensures
        text@ == folder_text(directory@, config@, *icons, entries@, record_views(records@)),
{
    let mut text = print_folder_structure(directory, entries, config, icons);
    if records.len() > 0 {
        let contents = emit_contents(directory, records);
        text.append(contents.as_str());
    }
    text
}

/// The counters of a run. They only ever grow, and stay at the largest
/// number they can hold once they reach it.
#[derive(Debug, Clone, Copy, PartialEq, Eq)]
pub struct RunStats {
    /// The number of listed files.
    pub total_files: usize,
    /// The number of bytes counted for them.
    pub total_bytes: u64,
}

/// The unit that a number of bytes is best shown in.
#[derive(Debug, Clone, Copy, PartialEq, Eq, Structural)]
pub enum SizeUnit {
    Bytes,
    Kilobytes,
    Megabytes,
}

/// What is shown of a run at its end.
#[derive(Debug, Clone, Copy)]
pub struct Summary {
    pub total_files: usize,
    pub total_bytes: u64,
    /// The unit to show the byte total in.
    pub total_unit: SizeUnit,
    /// The average size of a file in bytes, rounded down, if there is a
    /// file.
    pub average_size: Option<u64>,
    /// The unit to show the average in: bytes or kilobytes.
    pub average_unit: SizeUnit,
}

/// The number of bytes in a kilobyte.
pub const KILOBYTE: u64 = 1024;

/// The number of bytes in a megabyte.
pub const MEGABYTE: u64 = 1_048_576;

/// The unit for a byte total.
pub open spec fn total_unit_for(bytes: u64) -> SizeUnit {
    if bytes >= MEGABYTE {
        SizeUnit::Megabytes
    } else if bytes >= KILOBYTE {
        SizeUnit::Kilobytes
    } else {
        SizeUnit::Bytes
    }
}

/// The unit for an average, which is never shown in megabytes.
pub open spec fn average_unit_for(bytes: u64) -> SizeUnit {
    if bytes >= KILOBYTE {
        SizeUnit::Kilobytes
    } else {
        SizeUnit::Bytes
    }
}

impl RunStats {
    /// The counters at the start of a run.
    pub fn new() -> (stats: Self)
        ensures
            stats.total_files == 0,
            stats.total_bytes == 0,
    {
        RunStats { total_files: 0, total_bytes: 0 }
    }

    /// Counts the records of one folder: each is a file, and each adds
    /// its counted bytes.
    pub fn add_folder(&mut self, records: &Vec<FileRecord>)
        ensures
            final(self).total_files == at_most(
                old(self).total_files + records.len(),
                usize::MAX as int,
            ),
            final(self).total_bytes == at_most(
                old(self).total_bytes + sum_bytes(record_views(records@), records.len() as int),
                u64::MAX as int,
            ),
            final(self).total_files >= old(self).total_files,
            final(self).total_bytes >= old(self).total_bytes,
    {
        let ghost views = record_views(records@);
        self.total_files = self.total_files.saturating_add(records.len());
        let mut i: usize = 0;
        while i < records.len()
            invariant
                i <= records.len(),
                views == record_views(records@),
                self.total_files == at_most(
                    old(self).total_files + records.len(),
                    usize::MAX as int,
                ),
                self.total_bytes == at_most(
                    old(self).total_bytes + sum_bytes(views, i as int),
                    u64::MAX as int,
                ),
            decreases records.len() - i,
        {
            let counted: u64 = match &records[i].outcome {
                Outcome::Content(_) => records[i].size_bytes,
                Outcome::TooLarge(size) => *size,
                _ => 0,
            };
            self.total_bytes = self.total_bytes.saturating_add(counted);
            i += 1;
        }
    }

    /// What is shown of the run at its end.
    pub fn finalize(&self) -> (summary: Summary)
        ensures
            summary.total_files == self.total_files,
            summary.total_bytes == self.total_bytes,
            summary.total_unit == total_unit_for(self.total_bytes),
            summary.average_size == if self.total_files > 0 {
                Some((self.total_bytes / (self.total_files as u64)) as u64)
            } else {
                None
            },
            summary.average_unit == match summary.average_size {
                Some(average) => average_unit_for(average),
                None => SizeUnit::Bytes,
            },
    {
        let total_unit = if self.total_bytes >= MEGABYTE {
            SizeUnit::Megabytes
        } else if self.total_bytes >= KILOBYTE {
            SizeUnit::Kilobytes
        } else {
            SizeUnit::Bytes
        };
        let average_size = if self.total_files > 0 {
            Some(self.total_bytes / (self.total_files as u64))
        } else {
            None
        };
        let average_unit = match average_size {
            Some(average) => if average >= KILOBYTE {
                SizeUnit::Kilobytes
            } else {
                SizeUnit::Bytes
            },
            None => SizeUnit::Bytes,
        };
        Summary {
            total_files: self.total_files,
            total_bytes: self.total_bytes,
            total_unit,
            average_size,
            average_unit,
        }
    }
}

} // verus!

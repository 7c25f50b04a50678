//! What becomes of each listed file: the decisions between the steps of
//! reading it, the record that results, and the order of the records.
//!
//! The caller opens, measures and maps the files, on as many workers as it
//! likes. After each step it reports what happened with an [`IngestEvent`]
//! and [`ingest_step`] answers with what to do next. Records that come in
//! as the workers finish are put back into walk order by [`restore_order`].

use vstd::prelude::*;
use vstd::string::StringExecFns;
use vstd::utf8::{decode_utf8, valid_utf8};
use crate::rules::Rules;
use crate::walk::{skips_content, WalkEntry};
use crate::FlattenConfig;

verus! {

/// What was made of a file. Exactly one of the four applies.
#[derive(Debug, Clone)]
pub enum Outcome {
    /// The file's content, as text.
    Content(String),
    /// The file is larger than the limit; its size in bytes.
    TooLarge(u64),
    /// The file's extension is a skipped one; the file's name.
    Skipped(String),
    /// The file could not be read; what went wrong.
    ReadError(String),
}

/// The record of one listed file.
#[derive(Debug, Clone)]
pub struct FileRecord {
    /// The file's path, as it is written into the artifact.
    pub path: String,
    /// The file's size on disk, where it was measured and counts.
    pub size_bytes: u64,
    pub outcome: Outcome,
}

/// What an [`Outcome`] holds, as text.
pub enum OutcomeView {
    Content(Seq<char>),
    TooLarge(u64),
    Skipped(Seq<char>),
    ReadError(Seq<char>),
}

/// What a [`FileRecord`] holds, as text.
pub struct RecordView {
    pub path: Seq<char>,
    pub size_bytes: u64,
    pub outcome: OutcomeView,
}

impl View for Outcome {
    type V = OutcomeView;

    open spec fn view(&self) -> OutcomeView {
        match *self {
            Outcome::Content(text) => OutcomeView::Content(text@),
            Outcome::TooLarge(size) => OutcomeView::TooLarge(size),
            Outcome::Skipped(name) => OutcomeView::Skipped(name@),
            Outcome::ReadError(message) => OutcomeView::ReadError(message@),
        }
    }
}

impl View for FileRecord {
    type V = RecordView;

    open spec fn view(&self) -> RecordView {
        RecordView { path: self.path@, size_bytes: self.size_bytes, outcome: self.outcome@ }
    }
}

/// The views of a sequence of records, in the same order.
pub open spec fn record_views(records: Seq<FileRecord>) -> Seq<RecordView> {
    Seq::new(records.len(), |i: int| records[i]@)
}

/// The step of reading a file that failed.
#[derive(Debug, Clone, Copy, PartialEq, Eq, Structural)]
pub enum IoStage {
    Open,
    Metadata,
    Mapping,
}

/// What happened to a file since the last decision.
#[derive(Debug, Clone)]
pub enum IngestEvent {
    /// Nothing yet: the file was only listed.
    Start,
    /// The file was opened and measured; its size in bytes.
    Opened(u64),
    /// The file was mapped; its size in bytes and what it holds.
    Mapped(u64, Vec<u8>),
    /// A step failed.
    Failed(IoStage),
}

/// What to do with a file next.
#[derive(Debug, Clone)]
pub enum IngestAction {
    /// Open the file and measure it.
    Open,
    /// Map the file and take what it holds.
    Read,
    /// Nothing more: this is the file's record.
    Finish(FileRecord),
}

/// What an [`IngestAction`] holds, as text.
pub enum ActionView {
    Open,
    Read,
    Finish(RecordView),
}

impl View for IngestAction {
    type V = ActionView;

    open spec fn view(&self) -> ActionView {
        match *self {
            IngestAction::Open => ActionView::Open,
            IngestAction::Read => ActionView::Read,
            IngestAction::Finish(record) => ActionView::Finish(record@),
        }
    }
}

/// The text that a file's bytes stand for, with each part that is no valid
/// UTF-8 replaced. This names the result of [`String::from_utf8_lossy`].
pub uninterp spec fn lossy_text(bytes: Seq<u8>) -> Seq<char>;

/// Calls [`String::from_utf8_lossy`], which never fails: bytes that are
/// valid UTF-8 come back as the text they encode, and the result for other
/// bytes, which holds replacement characters, only has a name here.
#[verifier::external_body]
fn decode_lossy(bytes: &Vec<u8>) -> (text: String)
    ensures
        text@ == lossy_text(bytes@),
        valid_utf8(bytes@) ==> text@ == decode_utf8(bytes@),
{
    String::from_utf8_lossy(bytes).into_owned()
}

/// Whether a file of `size` bytes is larger than the limit. A limit of 0
/// is no limit.
pub open spec fn exceeds(rules: Rules, size: u64) -> bool {
    rules.max_file_size > 0 && size > rules.max_file_size
}

/// What is said of a step that failed on the file at `path`.
pub open spec fn failure_message(stage: IoStage, path: Seq<char>) -> Seq<char> {
    match stage {
        IoStage::Open => "Failed to open file: "@ + path,
        IoStage::Metadata => "Failed to read metadata: "@ + path,
        IoStage::Mapping => "Failed to memory map file: "@ + path,
    }
}

/// The record of a file whose reading ended with `outcome`.
pub open spec fn record_of(e: WalkEntry, size: u64, outcome: OutcomeView) -> ActionView {
    ActionView::Finish(RecordView { path: e.path@, size_bytes: size, outcome })
}

/// What to do with a listed file after an event.
///
/// A file with a skipped extension is never opened. An opened file that
/// is larger than the limit is not read, and an empty one needs no
/// reading. A mapped file yields its text, and a failed step ends the
/// reading with a record of the failure.
pub open spec fn next_action(rules: Rules, e: WalkEntry, event: IngestEvent) -> ActionView {
    match event {
        IngestEvent::Start => if skips_content(rules, e) {
            record_of(e, 0, OutcomeView::Skipped(e.name@))
        } else {
            ActionView::Open
        },
        IngestEvent::Opened(size) => if exceeds(rules, size) {
            record_of(e, size, OutcomeView::TooLarge(size))
        } else if size == 0 {
            record_of(e, 0, OutcomeView::Content(Seq::empty()))
        } else {
            ActionView::Read
        },
        IngestEvent::Mapped(size, bytes) => record_of(
            e,
            size,
            OutcomeView::Content(lossy_text(bytes@)),
        ),
        IngestEvent::Failed(stage) => record_of(
            e,
            0,
            OutcomeView::ReadError(failure_message(stage, e.path@)),
        ),
    }
}

/// The record of a file of `size` bytes that was read and whose bytes stand
/// for `text`.
pub fn content_record(entry: &WalkEntry, size: u64, text: String) -> (record: FileRecord)
    ensures
        record@ == (RecordView {
            path: entry.path@,
            size_bytes: size,
            outcome: OutcomeView::Content(text@),
        }),
{
    FileRecord { path: entry.path.clone(), size_bytes: size, outcome: Outcome::Content(text) }
}

/// Decides what to do with a listed file after an event.
pub fn ingest_step(config: &FlattenConfig, entry: &WalkEntry, event: IngestEvent) -> (action:
    IngestAction)
    ensures
        action@ == next_action(config@, *entry, event),
        event matches IngestEvent::Mapped(size, bytes) ==> (valid_utf8(bytes@) ==> action@
            == record_of(*entry, size, OutcomeView::Content(decode_utf8(bytes@)))),
{
    match event {
        IngestEvent::Start => {
            if entry.name_is_exact && config.should_skip_file(entry.name.as_str()) {
                IngestAction::Finish(
                    FileRecord {
                        path: entry.path.clone(),
                        size_bytes: 0,
                        outcome: Outcome::Skipped(entry.name.clone()),
                    },
                )
            } else {
                IngestAction::Open
            }
        },
        IngestEvent::Opened(size) => {
            if config.max_file_size() > 0 && size > config.max_file_size() {
                IngestAction::Finish(
                    FileRecord {
                        path: entry.path.clone(),
                        size_bytes: size,
                        outcome: Outcome::TooLarge(size),
                    },
                )
            } else if size == 0 {
                IngestAction::Finish(
                    FileRecord {
                        path: entry.path.clone(),
                        size_bytes: 0,
                        outcome: Outcome::Content(String::new()),
                    },
                )
            } else {
                IngestAction::Read
            }
        },
        IngestEvent::Mapped(size, bytes) => {
            IngestAction::Finish(content_record(entry, size, decode_lossy(&bytes)))
        },
        IngestEvent::Failed(stage) => {
            let mut message = match stage {
                IoStage::Open => "Failed to open file: ".to_owned(),
                IoStage::Metadata => "Failed to read metadata: ".to_owned(),
                IoStage::Mapping => "Failed to memory map file: ".to_owned(),
            };
            message.append(entry.path.as_str());
            IngestAction::Finish(
                FileRecord {
                    path: entry.path.clone(),
                    size_bytes: 0,
                    outcome: Outcome::ReadError(message),
                },
            )
        },
    }
}

/// The places that the items of `completions` are tagged with.
pub open spec fn places<T>(completions: Seq<(usize, T)>) -> Seq<usize> {
    Seq::new(completions.len(), |k: int| completions[k].0)
}

/// Whether one of the items is tagged with place `i`.
pub open spec fn is_taken(places: Seq<usize>, i: int) -> bool {
    exists|k: int| 0 <= k < places.len() && #[trigger] places[k] == i
}

/// Whether `places` gives each of the places below its length to exactly
/// one item.
pub open spec fn is_ordering(places: Seq<usize>) -> bool {
    &&& forall|k: int| 0 <= k < places.len() ==> (#[trigger] places[k]) < places.len()
    &&& forall|j: int, k: int| 0 <= j < k < places.len() ==> places[j] != places[k]
    &&& forall|i: int| 0 <= i < places.len() ==> #[trigger] is_taken(places, i)
}

/// The items of `v` in reverse.
fn reversed<T>(v: Vec<T>) -> (r: Vec<T>)
    ensures
        r@ == v@.reverse(),
{
    let ghost all = v@;
    let mut v = v;
    let mut r: Vec<T> = Vec::new();
    while v.len() > 0
        invariant
            v.len() + r.len() == all.len(),
            v@ == all.take(v.len() as int),
            forall|j: int| 0 <= j < r.len() ==> r[j] == all[all.len() - 1 - j],
        decreases v.len(),
    {
        let item = v.pop().unwrap();
        r.push(item);
    }
    r
}

/// Puts items that were tagged with their place back into that order.
///
/// The items may come in any order, as workers finish. When the tags give
/// each place below the number of items to exactly one item, the result
/// holds each item at its place. Otherwise there is no such order and the
/// result is `None`.
pub fn restore_order<T>(completions: Vec<(usize, T)>) -> (ordered: Option<Vec<T>>)
    ensures
        ordered is Some == is_ordering(places(completions@)),
        ordered matches Some(items) ==> {
            &&& items.len() == completions.len()
            &&& forall|k: int|
                0 <= k < completions.len() ==> items[(#[trigger] completions[k]).0 as int]
                    == completions[k].1
        },
{
    let ghost all = completions@;
    let ghost tags = places(all);
    let n = completions.len();
    let mut slots: Vec<Option<T>> = Vec::new();
    while slots.len() < n
        invariant
            slots.len() <= n,
            forall|i: int| 0 <= i < slots.len() ==> slots[i] is None,
        decreases n - slots.len(),
    {
        slots.push(None);
    }
    let mut rest = completions;
    while rest.len() > 0
        invariant
            n == all.len(),
            all == completions@,
            tags == places(all),
            tags.len() == n,
            slots.len() == n,
            rest.len() <= n,
            rest@ == all.take(rest.len() as int),
            forall|k: int| rest.len() <= k < n ==> (#[trigger] tags[k]) < n,
            forall|j: int, k: int| rest.len() <= j < k < n ==> tags[j] != tags[k],
            forall|k: int| rest.len() <= k < n ==> slots[(#[trigger] tags[k]) as int] == Some(all[k].1),
            forall|i: int|
                0 <= i < n && (#[trigger] slots[i]) is Some ==> exists|k: int|
                    rest.len() <= k < n && #[trigger] tags[k] == i,
        decreases rest.len(),
    {
        let ghost k = rest.len() - 1;
        let (place, item) = rest.pop().unwrap();
        assert(place == tags[k]);
        if place >= n {
            return None;
        }
        if slots[place].is_some() {
            let ghost other = choose|j: int| k < j < n && #[trigger] tags[j] == place;
            assert(tags[k] == tags[other]);
            return None;
        }
        slots.set(place, Some(item));
        assert forall|i: int| 0 <= i < n && (#[trigger] slots[i]) is Some implies exists|j: int|
            k <= j < n && #[trigger] tags[j] == i by {
            if i == place {
                assert(tags[k] == i);
            } else {
                let j = choose|j: int| k < j < n && #[trigger] tags[j] == i;
                assert(tags[j] == i);
            }
        }
    }
    let ghost filled = slots@;
    let mut backwards = reversed(slots);
    let mut items: Vec<T> = Vec::new();
    while backwards.len() > 0
        invariant
            n == all.len(),
            filled.len() == n,
            items.len() + backwards.len() == n,
            forall|j: int| 0 <= j < backwards.len() ==> backwards[j] == filled[n - 1 - j],
            forall|i: int| 0 <= i < items.len() ==> filled[i] == Some(items[i]),
            all == completions@,
            tags == places(all),
            tags.len() == n,
            forall|k: int| 0 <= k < n ==> (#[trigger] tags[k]) < n,
            forall|j: int, k: int| 0 <= j < k < n ==> tags[j] != tags[k],
            forall|k: int| 0 <= k < n ==> filled[(#[trigger] tags[k]) as int] == Some(all[k].1),
            forall|i: int|
                0 <= i < n && (#[trigger] filled[i]) is Some ==> exists|k: int|
                    0 <= k < n && #[trigger] tags[k] == i,
        decreases backwards.len(),
    {
        let ghost i = items.len() as int;
        let slot = backwards.pop().unwrap();
        assert(slot == filled[i]);
        match slot {
            Some(item) => {
                items.push(item);
            },
            None => {
                assert(!is_ordering(tags)) by {
                    if is_ordering(tags) {
                        assert(is_taken(tags, i));
                        let k = choose|k: int| 0 <= k < tags.len() && #[trigger] tags[k] == i;
                        assert(filled[tags[k] as int] == Some(all[k].1));
                    }
                }
                return None;
            },
        }
    }
    assert(is_ordering(tags)) by {
        assert forall|i: int| 0 <= i < tags.len() implies #[trigger] is_taken(tags, i) by {
            assert(filled[i] is Some);
        }
    }
    assert forall|k: int| 0 <= k < all.len() implies items[(#[trigger] all[k]).0 as int]
        == all[k].1 by {
        assert(filled[tags[k] as int] == Some(all[k].1));
    }
    Some(items)
}

} // verus!

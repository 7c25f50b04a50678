//! The walk over one folder: which entries are pruned, which files go on
//! to be read, and the tree that is drawn of them.
//!
//! A walk is a sequence of entries in the order in which the file system
//! yields them, each directory followed by what it holds, and each entry
//! with its depth below the root. That order is the order of everything
//! that comes after. A directory that the path rule turns away is pruned:
//! nothing below it is listed or drawn, whether or not the sequence holds
//! entries from below it.

use vstd::prelude::*;
use vstd::string::StringExecFns;
use crate::rules::{hides, skips_file, skips_path, too_deep, Rules};
use crate::FlattenConfig;

verus! {

/// What kind of thing a walk came upon.
#[derive(Debug, Clone, Copy, PartialEq, Eq, Structural)]
pub enum EntryKind {
    Directory,
    File,
    /// Neither a directory nor a regular file, such as a symbolic link.
    Other,
}

/// One entry of a walk.
#[derive(Debug, Clone)]
pub struct WalkEntry {
    /// The path of the entry, as it is written into the artifact.
    pub path: String,
    /// The last component of the path, as it is drawn in the tree.
    pub name: String,
    /// Whether `name` is the component itself rather than a rendering of a
    /// name that is no valid Unicode. The rules on names apply only then.
    pub name_is_exact: bool,
    /// How far below the root the entry lies; the root itself is at 0.
    pub depth: usize,
    pub kind: EntryKind,
}

/// The signs that the tree is drawn with.
#[derive(Debug, Clone)]
pub struct Icons {
    pub folder: String,
    pub file: String,
    pub skip: String,
}

/// Renders a [`console::Emoji`], which writes the emoji where the terminal
/// is taken to show emoji and the fallback elsewhere. Which of the two
/// comes back depends on how the terminal is set up; it is always one of them.
#[verifier::external_body]
fn emoji_or_fallback(emoji: &str, fallback: &str) -> (shown: String)
    ensures
        shown@ == emoji@ || shown@ == fallback@,
{
    format!("{}", console::Emoji(emoji, fallback))
}

impl Icons {
    /// The signs for this terminal: emoji where it shows them, words
    /// elsewhere.
    pub fn detect() -> (icons: Icons)
        ensures
            icons.folder@ == "📁"@ || icons.folder@ == "DIR"@,
            icons.file@ == "📄"@ || icons.file@ == "FILE"@,
            icons.skip@ == "⏭️"@ || icons.skip@ == "SKIP"@,
    {
        Icons {
            folder: emoji_or_fallback("📁", "DIR"),
            file: emoji_or_fallback("📄", "FILE"),
            skip: emoji_or_fallback("⏭️", "SKIP"),
        }
    }
}

/// Whether the path rule prunes an entry, if it is a directory. Only
/// directories are pruned.
pub open spec fn prunes(rules: Rules, e: WalkEntry) -> bool {
    e.name_is_exact && skips_path(rules, e.name@)
}

/// Whether an entry is left out because it is hidden.
pub open spec fn is_hidden(rules: Rules, e: WalkEntry) -> bool {
    e.name_is_exact && hides(rules, e.name@)
}

/// Whether the extension rule keeps the content of an entry out.
pub open spec fn skips_content(rules: Rules, e: WalkEntry) -> bool {
    e.name_is_exact && skips_file(rules, e.name@)
}

/// Whether an entry lies below the pruned directory whose depth `shadow`
/// holds.
pub open spec fn covers(shadow: Option<usize>, e: WalkEntry) -> bool {
    shadow matches Some(d) && e.depth > d
}

/// The shadow after an entry: the one before while the entry lies in it,
/// the entry's own depth if it is a directory that is pruned, and none
/// otherwise.
pub open spec fn shadow_after(rules: Rules, shadow: Option<usize>, e: WalkEntry) -> Option<usize> {
    if covers(shadow, e) {
        shadow
    } else if e.kind == EntryKind::Directory && prunes(rules, e) {
        Some(e.depth)
    } else {
        None
    }
}

/// The shadow that falls on the entry at `i`: the depth of the pruned
/// directory that was last come upon outside any shadow, for as long as
/// every entry since lies deeper.
pub open spec fn shadow(rules: Rules, entries: Seq<WalkEntry>, i: int) -> Option<usize>
    decreases i,
{
    if i <= 0 {
        None
    } else {
        shadow_after(rules, shadow(rules, entries, i - 1), entries[i - 1])
    }
}

/// Whether the entry at `i` lies below a pruned directory.
pub open spec fn shadowed(rules: Rules, entries: Seq<WalkEntry>, i: int) -> bool {
    covers(shadow(rules, entries, i), entries[i])
}

/// Whether the entry at `j` lies in the subtree of the entry at `k`: it
/// comes later, and it and all entries between lie deeper.
pub open spec fn inside(entries: Seq<WalkEntry>, k: int, j: int) -> bool {
    k < j && forall|m: int| k < m <= j ==> (#[trigger] entries[m]).depth > entries[k].depth
}

/// Whether the entry at `i` is a file whose content goes into the
/// artifact: a regular file within the depth limit that is not hidden and
/// lies below no pruned directory. The names of skipped folders say
/// nothing of files, and neither does a file's extension: a file whose
/// extension is skipped is listed and gets a record that says so.
pub open spec fn is_listed(rules: Rules, entries: Seq<WalkEntry>, i: int) -> bool {
    &&& entries[i].kind == EntryKind::File
    &&& !shadowed(rules, entries, i)
    &&& !is_hidden(rules, entries[i])
    &&& !too_deep(rules, entries[i].depth)
}

/// The listed files among the first `n` entries, in walk order.
pub open spec fn listed_files(rules: Rules, entries: Seq<WalkEntry>, n: int) -> Seq<WalkEntry>
    decreases n,
{
    if n <= 0 {
        Seq::empty()
    } else {
        let before = listed_files(rules, entries, n - 1);
        if is_listed(rules, entries, n - 1) {
            before.push(entries[n - 1])
        } else {
            before
        }
    }
}

/// Whether the entry at `i` is drawn in the tree, unless the rule for its
/// own kind leaves it out: it is not the root, lies within the depth limit
/// and below no pruned directory.
pub open spec fn is_shown(rules: Rules, entries: Seq<WalkEntry>, i: int) -> bool {
    &&& entries[i].depth > 0
    &&& !shadowed(rules, entries, i)
    &&& !too_deep(rules, entries[i].depth)
}

/// The indentation of `levels` levels, four spaces each.
pub open spec fn indent(levels: nat) -> Seq<char>
    decreases levels,
{
    if levels == 0 {
        Seq::empty()
    } else {
        indent((levels - 1) as nat) + "    "@
    }
}

/// The line of a directory that is walked.
pub open spec fn folder_line(icons: Icons, e: WalkEntry) -> Seq<char> {
    indent((e.depth - 1) as nat) + icons.folder@ + " "@ + e.name@ + "/\n"@
}

/// The line of a directory that is pruned.
pub open spec fn skipped_folder_line(icons: Icons, e: WalkEntry) -> Seq<char> {
    indent((e.depth - 1) as nat) + icons.skip@ + " "@ + e.name@ + "/ (skipped)\n"@
}

/// The line of a file whose content is read.
pub open spec fn file_line(icons: Icons, e: WalkEntry) -> Seq<char> {
    indent((e.depth - 1) as nat) + icons.file@ + " "@ + e.name@ + "\n"@
}

/// The line of a file whose content is kept out.
pub open spec fn skipped_file_line(icons: Icons, e: WalkEntry) -> Seq<char> {
    indent((e.depth - 1) as nat) + icons.skip@ + " "@ + e.name@ + " (skipped)\n"@
}

/// What the tree shows of one entry that is drawn. A pruned directory and
/// a file whose content is kept out have a line, marked as skipped, only
/// when what was skipped is shown.
pub open spec fn entry_line(rules: Rules, icons: Icons, e: WalkEntry) -> Seq<char> {
    if e.kind == EntryKind::Directory {
        if !prunes(rules, e) {
            folder_line(icons, e)
        } else if rules.show_skipped {
            skipped_folder_line(icons, e)
        } else {
            Seq::empty()
        }
    } else {
        if !skips_content(rules, e) {
            file_line(icons, e)
        } else if rules.show_skipped {
            skipped_file_line(icons, e)
        } else {
            Seq::empty()
        }
    }
}

/// The lines of the tree for the first `n` entries.
pub open spec fn tree_lines(rules: Rules, icons: Icons, entries: Seq<WalkEntry>, n: int) -> Seq<char>
    decreases n,
{
    if n <= 0 {
        Seq::empty()
    } else {
        let before = tree_lines(rules, icons, entries, n - 1);
        if is_shown(rules, entries, n - 1) {
            before + entry_line(rules, icons, entries[n - 1])
        } else {
            before
        }
    }
}

/// The line that opens and closes the tree of a folder.
pub open spec fn structure_marker(directory: Seq<char>) -> Seq<char> {
    "### DIRECTORY "@ + directory + " FOLDER STRUCTURE ###\n"@
}

/// The structure section of a folder: the tree between two markers, and a
/// blank line.
pub open spec fn structure_section(
    directory: Seq<char>,
    rules: Rules,
    icons: Icons,
    entries: Seq<WalkEntry>,
) -> Seq<char> {
    structure_marker(directory) + tree_lines(rules, icons, entries, entries.len() as int)
        + structure_marker(directory) + "\n"@
}

/// Nothing below a pruned directory is listed or drawn, whatever else the
/// rules say: an entry in the subtree of a directory that the path rule
/// turns away lies in a shadow.
pub proof fn lemma_pruned_subtree_hidden(rules: Rules, entries: Seq<WalkEntry>, k: int, j: int)
    requires
        0 <= k < j < entries.len(),
        entries[k].kind == EntryKind::Directory,
        prunes(rules, entries[k]),
        inside(entries, k, j),
    ensures
        shadowed(rules, entries, j),
        !is_listed(rules, entries, j),
        !is_shown(rules, entries, j),
    decreases j - k,
{
    lemma_shadow_holds(rules, entries, k, j);
}

/// From a pruned directory on, a shadow no deeper than the directory lasts
/// for as long as the entries lie deeper than it.
proof fn lemma_shadow_holds(rules: Rules, entries: Seq<WalkEntry>, k: int, j: int)
    requires
        0 <= k < j < entries.len(),
        entries[k].kind == EntryKind::Directory,
        prunes(rules, entries[k]),
        inside(entries, k, j),
    ensures
        shadow(rules, entries, j) matches Some(d) && d <= entries[k].depth,
    decreases j - k,
{
    if j == k + 1 {
        assert(shadow(rules, entries, j) == shadow_after(
            rules,
            shadow(rules, entries, k),
            entries[k],
        ));
    } else {
        assert(inside(entries, k, j - 1)) by {
            assert forall|m: int| k < m <= j - 1 implies (#[trigger] entries[m]).depth
                > entries[k].depth by {}
        }
        lemma_shadow_holds(rules, entries, k, j - 1);
    }
}

/// Whether the entry at `k` is a pruned directory in whose subtree the
/// entry at `j` lies.
pub open spec fn is_pruned_above(rules: Rules, entries: Seq<WalkEntry>, k: int, j: int) -> bool {
    &&& 0 <= k < j
    &&& entries[k].kind == EntryKind::Directory
    &&& prunes(rules, entries[k])
    &&& inside(entries, k, j)
}

/// Whether the entry at `k` is a pruned directory of depth `d` that all
/// entries after it and before `i` lie deeper than.
pub open spec fn casts_shadow(
    rules: Rules,
    entries: Seq<WalkEntry>,
    k: int,
    d: usize,
    i: int,
) -> bool {
    &&& 0 <= k < i
    &&& entries[k].kind == EntryKind::Directory
    &&& prunes(rules, entries[k])
    &&& entries[k].depth == d
    &&& forall|m: int| k < m < i ==> (#[trigger] entries[m]).depth > d
}

/// Every shadow is cast by a pruned directory.
proof fn lemma_shadow_is_cast(rules: Rules, entries: Seq<WalkEntry>, i: int)
    requires
        0 <= i <= entries.len(),
        shadow(rules, entries, i) is Some,
    ensures
        exists|k: int| #[trigger] casts_shadow(rules, entries, k, shadow(rules, entries, i)->0, i),
    decreases i,
{
    let d = shadow(rules, entries, i)->0;
    let before = shadow(rules, entries, i - 1);
    let e = entries[i - 1];
    if covers(before, e) {
        lemma_shadow_is_cast(rules, entries, i - 1);
        let k = choose|k: int| #[trigger] casts_shadow(rules, entries, k, d, i - 1);
        assert(casts_shadow(rules, entries, k, d, i));
    } else {
        assert(casts_shadow(rules, entries, i - 1, d, i));
    }
}

/// Nothing is hidden without cause: an entry that lies in a shadow lies in
/// the subtree of a directory that the path rule turns away.
pub proof fn lemma_hidden_lies_below_pruned(rules: Rules, entries: Seq<WalkEntry>, j: int)
    requires
        0 <= j < entries.len(),
        shadowed(rules, entries, j),
    ensures
        exists|k: int| #[trigger] is_pruned_above(rules, entries, k, j),
{
    lemma_shadow_is_cast(rules, entries, j);
    let d = shadow(rules, entries, j)->0;
    let k = choose|k: int| #[trigger] casts_shadow(rules, entries, k, d, j);
    assert(inside(entries, k, j));
    assert(is_pruned_above(rules, entries, k, j));
}

/// The shadow at `i` depends only on the entries before `i`.
proof fn lemma_shadow_of_prefix(rules: Rules, a: Seq<WalkEntry>, b: Seq<WalkEntry>, i: int)
    requires
        forall|m: int| 0 <= m < i ==> a[m] == b[m],
    ensures
        shadow(rules, a, i) == shadow(rules, b, i),
    decreases i,
{
    if i > 0 {
        lemma_shadow_of_prefix(rules, a, b, i - 1);
    }
}

/// Without a hidden entry, the shadows on the entries after it are the
/// same as with it.
proof fn lemma_shadow_without(rules: Rules, entries: Seq<WalkEntry>, j: int, i: int)
    requires
        0 <= j < entries.len(),
        shadowed(rules, entries, j),
        j <= i < entries.len(),
    ensures
        shadow(rules, entries.remove(j), i) == shadow(rules, entries, i + 1),
    decreases i - j,
{
    let fewer = entries.remove(j);
    if i == j {
        lemma_shadow_of_prefix(rules, fewer, entries, j);
    } else {
        lemma_shadow_without(rules, entries, j, i - 1);
    }
}

/// What is listed and drawn of the first entries of a walk without a
/// hidden entry is what is listed and drawn with it.
proof fn lemma_counts_without(
    rules: Rules,
    icons: Icons,
    entries: Seq<WalkEntry>,
    j: int,
    n: int,
)
    requires
        0 <= j < entries.len(),
        shadowed(rules, entries, j),
        0 <= n < entries.len(),
    ensures
        n <= j ==> listed_files(rules, entries.remove(j), n) == listed_files(rules, entries, n),
        n <= j ==> tree_lines(rules, icons, entries.remove(j), n) == tree_lines(
            rules,
            icons,
            entries,
            n,
        ),
        n >= j ==> listed_files(rules, entries.remove(j), n) == listed_files(rules, entries, n + 1),
        n >= j ==> tree_lines(rules, icons, entries.remove(j), n) == tree_lines(
            rules,
            icons,
            entries,
            n + 1,
        ),
    decreases n,
{
    let fewer = entries.remove(j);
    if n > 0 {
        lemma_counts_without(rules, icons, entries, j, n - 1);
        if n <= j {
            lemma_shadow_of_prefix(rules, fewer, entries, n - 1);
        } else {
            lemma_shadow_without(rules, entries, j, n - 1);
        }
    }
    if n == j {
        assert(listed_files(rules, entries, j + 1) == listed_files(rules, entries, j));
    }
}

/// A walk need not descend into a pruned directory: leaving an entry that
/// lies below one out of the walk changes neither the files that are
/// listed nor the tree that is drawn.
pub proof fn lemma_hidden_entries_do_not_count(
    rules: Rules,
    icons: Icons,
    entries: Seq<WalkEntry>,
    j: int,
)
    requires
        0 <= j < entries.len(),
        shadowed(rules, entries, j),
    ensures
        listed_files(rules, entries.remove(j), entries.len() - 1) == listed_files(
            rules,
            entries,
            entries.len() as int,
        ),
        tree_lines(rules, icons, entries.remove(j), entries.len() - 1) == tree_lines(
            rules,
            icons,
            entries,
            entries.len() as int,
        ),
{
    lemma_counts_without(rules, icons, entries, j, entries.len() - 1);
}

/// Whether two entries hold the same text and the same facts.
pub open spec fn same_entry(a: WalkEntry, b: WalkEntry) -> bool {
    &&& a.path@ == b.path@
    &&& a.name@ == b.name@
    &&& a.name_is_exact == b.name_is_exact
    &&& a.depth == b.depth
    &&& a.kind == b.kind
}

/// Whether two walks hold the same entries in the same order.
pub open spec fn same_walk(a: Seq<WalkEntry>, b: Seq<WalkEntry>) -> bool {
    a.len() == b.len() && forall|m: int| 0 <= m < a.len() ==> same_entry(#[trigger] a[m], b[m])
}

/// Whether two sets of signs hold the same text.
pub open spec fn same_icons(a: Icons, b: Icons) -> bool {
    a.folder@ == b.folder@ && a.file@ == b.file@ && a.skip@ == b.skip@
}

/// Walks that hold the same entries cast the same shadows.
proof fn lemma_same_shadow(rules: Rules, a: Seq<WalkEntry>, b: Seq<WalkEntry>, i: int)
    requires
        same_walk(a, b),
        0 <= i <= a.len(),
    ensures
        shadow(rules, a, i) == shadow(rules, b, i),
    decreases i,
{
    if i > 0 {
        lemma_same_shadow(rules, a, b, i - 1);
    }
}

/// The tree depends only on what the walk and the signs hold as text: two
/// walks with the same entries are drawn alike.
pub proof fn lemma_same_tree(
    rules: Rules,
    icons_a: Icons,
    icons_b: Icons,
    a: Seq<WalkEntry>,
    b: Seq<WalkEntry>,
    n: int,
)
    requires
        same_walk(a, b),
        same_icons(icons_a, icons_b),
        0 <= n <= a.len(),
    ensures
        tree_lines(rules, icons_a, a, n) == tree_lines(rules, icons_b, b, n),
    decreases n,
{
    if n > 0 {
        lemma_same_tree(rules, icons_a, icons_b, a, b, n - 1);
        lemma_same_shadow(rules, a, b, n - 1);
    }
}

/// The listed files grow entry by entry: the files listed among the first
/// `i` entries are the first of the files listed among the first `n`.
pub proof fn lemma_listed_files_prefix(rules: Rules, entries: Seq<WalkEntry>, i: int, n: int)
    requires
        0 <= i <= n,
    ensures
        listed_files(rules, entries, i).len() <= listed_files(rules, entries, n).len(),
        forall|f: int|
            0 <= f < listed_files(rules, entries, i).len() ==> #[trigger] listed_files(
                rules,
                entries,
                n,
            )[f] == listed_files(rules, entries, i)[f],
    decreases n - i,
{
    if i < n {
        lemma_listed_files_prefix(rules, entries, i, n - 1);
    }
}

/// The listing is complete: a regular file that is not hidden, lies within
/// the depth limit and below no pruned directory is listed, whatever its
/// own name and extension are. It stands among the listed files once, after
/// the files that the walk came upon before it.
pub proof fn lemma_unpruned_file_is_listed(rules: Rules, entries: Seq<WalkEntry>, i: int)
    requires
        0 <= i < entries.len(),
        entries[i].kind == EntryKind::File,
        !is_hidden(rules, entries[i]),
        !too_deep(rules, entries[i].depth),
        forall|k: int| !(#[trigger] is_pruned_above(rules, entries, k, i)),
    ensures
        is_listed(rules, entries, i),
        ({
            let files = listed_files(rules, entries, entries.len() as int);
            let at = listed_files(rules, entries, i).len() as int;
            at < files.len() && files[at] == entries[i]
        }),
{
    if shadowed(rules, entries, i) {
        lemma_hidden_lies_below_pruned(rules, entries, i);
    }
    let at = listed_files(rules, entries, i).len() as int;
    assert(listed_files(rules, entries, i + 1)[at] == entries[i]);
    lemma_listed_files_prefix(rules, entries, i + 1, entries.len() as int);
}

/// Of two listed files, the one that the walk came upon first stands first
/// among the listed files.
pub proof fn lemma_listed_in_walk_order(rules: Rules, entries: Seq<WalkEntry>, i: int, j: int)
    requires
        0 <= i < j < entries.len(),
        is_listed(rules, entries, i),
    ensures
        listed_files(rules, entries, i).len() < listed_files(rules, entries, j).len(),
{
    lemma_listed_files_prefix(rules, entries, i + 1, j);
}

/// Every listed file is an entry of the walk that is listed, and the
/// listed files keep the order of the walk.
pub proof fn lemma_listed_files(rules: Rules, entries: Seq<WalkEntry>, n: int, f: int)
    requires
        0 <= n <= entries.len(),
        0 <= f < listed_files(rules, entries, n).len(),
    ensures
        exists|i: int|
            0 <= i < n && is_listed(rules, entries, i) && listed_files(rules, entries, n)[f]
                == entries[i] && listed_files(rules, entries, i).len() == f,
    decreases n,
{
    if n > 0 {
        let before = listed_files(rules, entries, n - 1);
        if f < before.len() {
            lemma_listed_files(rules, entries, n - 1, f);
        } else {
            assert(is_listed(rules, entries, n - 1));
        }
    }
}

/// The tree grows entry by entry: what is drawn of the first `i` entries
/// is the beginning of what is drawn of the first `n`.
pub proof fn lemma_tree_lines_prefix(
    rules: Rules,
    icons: Icons,
    entries: Seq<WalkEntry>,
    i: int,
    n: int,
)
    requires
        0 <= i <= n,
    ensures
        tree_lines(rules, icons, entries, i).len() <= tree_lines(rules, icons, entries, n).len(),
        tree_lines(rules, icons, entries, n).take(tree_lines(rules, icons, entries, i).len() as int)
            == tree_lines(rules, icons, entries, i),
    decreases n - i,
{
    let short = tree_lines(rules, icons, entries, i);
    if i == n {
        assert(short.take(short.len() as int) =~= short);
    } else {
        lemma_tree_lines_prefix(rules, icons, entries, i, n - 1);
        let before = tree_lines(rules, icons, entries, n - 1);
        let full = tree_lines(rules, icons, entries, n);
        assert(full.take(before.len() as int) =~= before);
    }
}

/// A pruned directory that the walk comes upon outside any shadow is drawn
/// in the tree, marked as skipped, when what was skipped is shown: its line
/// stands in the tree right after what was drawn of the entries before it.
/// When what was skipped is not shown, the tree holds nothing of it.
pub proof fn lemma_show_skipped_toggle(
    rules: Rules,
    icons: Icons,
    entries: Seq<WalkEntry>,
    i: int,
)
    requires
        0 <= i < entries.len(),
        entries[i].kind == EntryKind::Directory,
        prunes(rules, entries[i]),
        is_shown(rules, entries, i),
    ensures
        rules.show_skipped ==> ({
            let tree = tree_lines(rules, icons, entries, entries.len() as int);
            let start = tree_lines(rules, icons, entries, i).len() as int;
            let line = skipped_folder_line(icons, entries[i]);
            &&& start + line.len() <= tree.len()
            &&& tree.subrange(start, start + line.len()) == line
        }),
        !rules.show_skipped ==> tree_lines(rules, icons, entries, i + 1) == tree_lines(
            rules,
            icons,
            entries,
            i,
        ),
{
    if rules.show_skipped {
        let tree = tree_lines(rules, icons, entries, entries.len() as int);
        let before = tree_lines(rules, icons, entries, i);
        let with_line = tree_lines(rules, icons, entries, i + 1);
        let line = skipped_folder_line(icons, entries[i]);
        let start = before.len() as int;
        let end = start + line.len();
        assert(with_line == before + line);
        lemma_tree_lines_prefix(rules, icons, entries, i + 1, entries.len() as int);
        assert(tree.subrange(start, end) =~= tree.take(with_line.len() as int).subrange(start, end));
    }
}

/// Whether the path rule prunes an entry, if it is a directory.
fn is_pruned(config: &FlattenConfig, e: &WalkEntry) -> (pruned: bool)
    ensures
        pruned == prunes(config@, *e),
{
    e.name_is_exact && config.should_skip_path(e.name.as_str())
}

/// Whether an entry lies in the shadow, and the shadow after it.
fn step(config: &FlattenConfig, shadow: Option<usize>, e: &WalkEntry) -> (r: (bool, Option<usize>))
    ensures
        r.0 == covers(shadow, *e),
        r.1 == shadow_after(config@, shadow, *e),
{
    let covered = match shadow {
        Some(d) => e.depth > d,
        None => false,
    };
    if covered {
        (true, shadow)
    } else if e.kind == EntryKind::Directory && is_pruned(config, e) {
        (false, Some(e.depth))
    } else {
        (false, None)
    }
}

/// Whether an entry at `depth` lies below the deepest level that is walked.
fn is_too_deep(config: &FlattenConfig, depth: usize) -> (deep: bool)
    ensures
        deep == too_deep(config@, depth),
{
    config.max_depth() > 0 && depth > config.max_depth()
}

/// A copy of an entry.
fn copy_entry(e: &WalkEntry) -> (copy: WalkEntry)
    ensures
        copy == *e,
{
    WalkEntry {
        path: e.path.clone(),
        name: e.name.clone(),
        name_is_exact: e.name_is_exact,
        depth: e.depth,
        kind: e.kind,
    }
}

/// Whether a directory, looked at on its own, may be walked: the path rule
/// does not prune it and it lies within the depth limit. The caller of a
/// walk asks this of each directory before it descends.
pub fn may_descend(config: &FlattenConfig, e: &WalkEntry) -> (walk: bool)
    ensures
        walk == (!prunes(config@, *e) && !too_deep(config@, e.depth)),
{
    !is_pruned(config, e) && !is_too_deep(config, e.depth)
}

/// The files of a walk whose content goes into the artifact, in walk order.
pub fn collect_files(entries: &Vec<WalkEntry>, config: &FlattenConfig) -> (files: Vec<WalkEntry>)
    ensures
        files@ == listed_files(config@, entries@, entries.len() as int),
{
    let mut files: Vec<WalkEntry> = Vec::new();
    let mut shadow: Option<usize> = None;
    let mut i: usize = 0;
    while i < entries.len()
        invariant
            i <= entries.len(),
            shadow == crate::walk::shadow(config@, entries@, i as int),
            files@ == listed_files(config@, entries@, i as int),
        decreases entries.len() - i,
    {
        let e = &entries[i];
        let (covered, next) = step(config, shadow, e);
        if e.kind == EntryKind::File && !covered && !(e.name_is_exact && config.is_hidden(
            e.name.as_str(),
        )) && !is_too_deep(config, e.depth) {
            files.push(copy_entry(e));
        }
        shadow = next;
        i += 1;
    }
    files
}

/// Appends the indentation of `levels` levels to `out`.
fn push_indent(out: &mut String, levels: usize)
    ensures
        final(out)@ == old(out)@ + indent(levels as nat),
{
    let mut i: usize = 0;
    assert(out@ =~= old(out)@ + indent(0));
    while i < levels
        invariant
            i <= levels,
            out@ == old(out)@ + indent(i as nat),
        decreases levels - i,
    {
        out.append("    ");
        i += 1;
    }
}

/// Appends to `out` what the tree shows of one entry that is drawn.
fn push_entry_line(out: &mut String, config: &FlattenConfig, icons: &Icons, e: &WalkEntry)
    requires
        e.depth > 0,
    ensures
        final(out)@ == old(out)@ + entry_line(config@, *icons, *e),
{
    let skipped = if e.kind == EntryKind::Directory {
        is_pruned(config, e)
    } else {
        e.name_is_exact && config.should_skip_file(e.name.as_str())
    };
    if skipped && !config.show_skipped() {
        return ;
    }
    push_indent(out, e.depth - 1);
    if skipped {
        out.append(icons.skip.as_str());
    } else if e.kind == EntryKind::Directory {
        out.append(icons.folder.as_str());
    } else {
        out.append(icons.file.as_str());
    }
    out.append(" ");
    out.append(e.name.as_str());
    if e.kind == EntryKind::Directory {
        if skipped {
            out.append("/ (skipped)\n");
        } else {
            out.append("/\n");
        }
    } else {
        if skipped {
            out.append(" (skipped)\n");
        } else {
            out.append("\n");
        }
    }
}

/// Appends the marker of a folder's tree to `out`.
fn push_structure_marker(out: &mut String, directory: &str)
    ensures
        final(out)@ == old(out)@ + structure_marker(directory@),
{
    out.append("### DIRECTORY ");
    out.append(directory);
    out.append(" FOLDER STRUCTURE ###\n");
}

/// The structure section of a folder: its tree, drawn from a walk with
/// one line for each entry and an indentation that follows the depth.
pub fn print_folder_structure(
    directory: &str,
    entries: &Vec<WalkEntry>,
    config: &FlattenConfig,
    icons: &Icons,
) -> (section: String)
    ensures
        section@ == structure_section(directory@, config@, *icons, entries@),
{
    let mut out = String::new();
    push_structure_marker(&mut out, directory);
    let mut shadow: Option<usize> = None;
    let mut i: usize = 0;
    assert(out@ =~= structure_marker(directory@) + tree_lines(config@, *icons, entries@, 0));
    while i < entries.len()
        invariant
            i <= entries.len(),
            shadow == crate::walk::shadow(config@, entries@, i as int),
            out@ == structure_marker(directory@) + tree_lines(config@, *icons, entries@, i as int),
        decreases entries.len() - i,
    {
        let e = &entries[i];
        let (covered, next) = step(config, shadow, e);
        if e.depth > 0 && !covered && !is_too_deep(config, e.depth) {
            push_entry_line(&mut out, config, icons, e);
        }
        assert(out@ =~= structure_marker(directory@) + tree_lines(
            config@,
            *icons,
            entries@,
            i + 1,
        ));
        shadow = next;
        i += 1;
    }
    push_structure_marker(&mut out, directory);
    out.append("\n");
    out
}

} // verus!

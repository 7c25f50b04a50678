//! Flattens directory trees into one structured text artifact, under
//! exclusion rules drawn from cached templates.
//!
//! The crate holds the rules and the text: which templates are enabled,
//! which folders a walk prunes, what becomes of each file, and how the
//! artifact is laid out. It reads no file and makes no request. Its caller
//! walks the tree, reads the files and fetches the templates, and hands in
//! what it found.

pub mod config;
pub mod exclusions;
pub mod ingest;
pub mod listing;
pub mod output;
pub mod rules;
pub mod text;
pub mod walk;

use vstd::prelude::*;
use vstd::hash_set::StringHashSet;
use vstd::string::StringExecFns;
use crate::exclusions::{
    detect_into, detection_table, extension_set, folder_set, insert_extensions, insert_folders,
    lemma_detection_adds, lemma_without_key, lemma_without_keys, with_keys, without_keys,
    ExclusionManager,
};
use crate::config::store_keys;
use crate::ingest::{next_action, record_views, ActionView, FileRecord, IngestEvent};
use crate::listing::{enabled_listing, list_templates, show_enabled, template_listing};
use crate::output::{
    at_most, begin_marker, block, blocks, content_marker, end_marker, flatten_folder, folder_text,
    lemma_block_structure, lemma_blocks_prefix, record_text, records_of_files, sum_bytes, RunStats,
};
use crate::rules::{hides, last_dot, skips_file, skips_path, Rules};
use crate::text::{decimal, string_of, to_chars, views};
use crate::walk::{
    is_listed, is_pruned_above, lemma_listed_files, lemma_pruned_subtree_hidden, lemma_same_tree,
    listed_files, same_icons, same_walk, structure_section, Icons, WalkEntry,
};

verus! {

/// The inputs of a run, as plain values.
#[derive(Debug, Clone)]
pub struct Args {
    /// The folders to flatten.
    pub folders: Vec<String>,
    /// Names of folders to prune.
    pub skip_folders: Vec<String>,
    /// Where the artifact goes.
    pub output: String,
    /// Whether what was skipped is still shown in the tree.
    pub show_skipped: bool,
    /// The number of workers that read files; 0 for as many as there are.
    pub threads: usize,
    /// The largest file whose content is read, in bytes; 0 for no limit.
    pub max_file_size: u64,
    /// Extensions of files whose content is not read.
    pub skip_extensions: Vec<String>,
    /// Whether templates are enabled by what the folders hold.
    pub auto_detect: bool,
    /// Whether hidden entries are walked like the others.
    pub include_hidden: bool,
    /// The deepest level that is walked; 0 for no limit.
    pub max_depth: usize,
    /// Whether statistics are shown at the end.
    pub show_stats: bool,
    /// Whether the run only shows what it would do.
    pub dry_run: bool,
    /// Whether the available templates are to be listed.
    pub list_templates: bool,
    /// Keys of templates to enable.
    pub enable_templates: Vec<String>,
    /// Keys of templates to disable.
    pub disable_templates: Vec<String>,
    /// Whether the templates are to be fetched whatever the cache holds.
    pub force_update: bool,
    /// Whether the enabled templates are to be shown.
    pub show_enabled: bool,
}

/// The texts of a sequence of lists of strings.
pub open spec fn nested_views(lists: Seq<Vec<String>>) -> Seq<Seq<Seq<char>>> {
    Seq::new(lists.len(), |i: int| views(lists[i]@))
}

/// The enabled keys after detection in each folder in turn, given the
/// marker files found in each.
pub open spec fn detect_all(enabled: Seq<Seq<char>>, markers: Seq<Seq<Seq<char>>>) -> Seq<
    Seq<char>,
>
    decreases markers.len(),
{
    if markers.len() == 0 {
        enabled
    } else {
        detect_into(detect_all(enabled, markers.drop_last()), detection_table(), markers.last())
    }
}

/// The keys that are enabled before any is turned off: those enabled
/// before, then the ones asked for, then the ones detected. Detection only
/// adds keys.
pub open spec fn wanted_keys(
    args: Args,
    enabled: Seq<Seq<char>>,
    markers: Seq<Seq<Seq<char>>>,
) -> Seq<Seq<char>> {
    let asked = with_keys(enabled, views(args.enable_templates@));
    if args.auto_detect && args.folders.len() > 0 {
        detect_all(asked, markers)
    } else {
        asked
    }
}

/// The keys that a run has enabled: the wanted keys without the ones that
/// the arguments turn off. A key that is turned off stays off, whatever
/// detection finds.
pub open spec fn configured_keys(
    args: Args,
    enabled: Seq<Seq<char>>,
    markers: Seq<Seq<Seq<char>>>,
) -> Seq<Seq<char>> {
    without_keys(wanted_keys(args, enabled, markers), views(args.disable_templates@))
}

/// An explicit choice stands against detection: a key that the arguments
/// turn off is not enabled in the configuration, whatever the folders
/// hold, and so adds no pattern to the exclusion sets.
pub proof fn lemma_disabled_stays_off(
    args: Args,
    enabled: Seq<Seq<char>>,
    markers: Seq<Seq<Seq<char>>>,
    key: Seq<char>,
)
    requires
        views(args.disable_templates@).contains(key),
    ensures
        !configured_keys(args, enabled, markers).contains(key),
{
    lemma_without_keys(wanted_keys(args, enabled, markers), views(args.disable_templates@), key);
}

/// Detection never takes a key away: a key that was enabled before, or
/// that the arguments ask for, and that they do not turn off is enabled in
/// the configuration.
pub proof fn lemma_detection_keeps_keys(
    args: Args,
    enabled: Seq<Seq<char>>,
    markers: Seq<Seq<Seq<char>>>,
    key: Seq<char>,
)
    requires
        with_keys(enabled, views(args.enable_templates@)).contains(key),
        !views(args.disable_templates@).contains(key),
    ensures
        configured_keys(args, enabled, markers).contains(key),
{
    let asked = with_keys(enabled, views(args.enable_templates@));
    lemma_detect_all_adds(asked, markers, key);
    lemma_kept_by_without_keys(
        wanted_keys(args, enabled, markers),
        views(args.disable_templates@),
        key,
    );
}

/// Every key that was enabled before detection in some folders is enabled
/// after it.
proof fn lemma_detect_all_adds(
    enabled: Seq<Seq<char>>,
    markers: Seq<Seq<Seq<char>>>,
    key: Seq<char>,
)
    requires
        enabled.contains(key),
    ensures
        detect_all(enabled, markers).contains(key),
    decreases markers.len(),
{
    if markers.len() > 0 {
        lemma_detect_all_adds(enabled, markers.drop_last(), key);
        lemma_detection_adds(
            detect_all(enabled, markers.drop_last()),
            detection_table(),
            markers.last(),
            key,
        );
    }
}

/// Turning keys off leaves every other key enabled.
proof fn lemma_kept_by_without_keys(enabled: Seq<Seq<char>>, keys: Seq<Seq<char>>, key: Seq<char>)
    requires
        enabled.contains(key),
        !keys.contains(key),
    ensures
        without_keys(enabled, keys).contains(key),
    decreases keys.len(),
{
    if keys.len() > 0 {
        assert forall|k: Seq<char>| keys.drop_last().contains(k) implies keys.contains(k) by {
            let i = choose|i: int| 0 <= i < keys.drop_last().len() && keys.drop_last()[i] == k;
            assert(keys[i] == k);
        }
        lemma_kept_by_without_keys(enabled, keys.drop_last(), key);
        assert(keys[keys.len() - 1] == keys.last());
        lemma_without_key(without_keys(enabled, keys.drop_last()), keys.last());
    }
}

/// The configuration of one run: the exclusion sets and the limits.
pub struct FlattenConfig {
    exclusion_manager: ExclusionManager,
    skip_folders: StringHashSet,
    skip_extensions: StringHashSet,
    show_skipped: bool,
    max_file_size: u64,
    include_hidden: bool,
    max_depth: usize,
    show_stats: bool,
    dry_run: bool,
}

impl View for FlattenConfig {
    type V = Rules;

    closed spec fn view(&self) -> Rules {
        Rules {
            skip_folders: self.skip_folders@,
            skip_extensions: self.skip_extensions@,
            show_skipped: self.show_skipped,
            max_file_size: self.max_file_size,
            include_hidden: self.include_hidden,
            max_depth: self.max_depth,
        }
    }
}

impl FlattenConfig {
    /// The exclusion manager that the configuration was built with.
    pub closed spec fn manager(&self) -> ExclusionManager {
        self.exclusion_manager
    }

    /// Whether statistics are shown at the end.
    pub closed spec fn shows_stats(&self) -> bool {
        self.show_stats
    }

    /// Whether the run only shows what it would do.
    pub closed spec fn is_dry_run(&self) -> bool {
        self.dry_run
    }

    /// Builds the configuration of a run.
    ///
    /// The templates that `args` asks for are enabled first. With
    /// `auto_detect`, and at least one folder given, each list of `markers`
    /// holds the marker files found in one folder, and enables the
    /// templates they speak for. The templates that `args` turns off are
    /// disabled last, so that detection never brings one of them back. The
    /// exclusion sets are the names that `args` gives together with those
    /// of the enabled templates' patterns.
    pub fn new(args: &Args, exclusion_manager: ExclusionManager, markers: &Vec<Vec<String>>) -> (config:
        Self)
        ensures
            config.manager().manager() == exclusion_manager.manager(),
            config.manager().enabled() == configured_keys(
                *args,
                exclusion_manager.enabled(),
                nested_views(markers@),
            ),
            config@ == (Rules {
                skip_folders: views(args.skip_folders@).to_set().union(
                    folder_set(config.manager().patterns()),
                ),
                skip_extensions: views(args.skip_extensions@).to_set().union(
                    extension_set(config.manager().patterns()),
                ),
                show_skipped: args.show_skipped,
                max_file_size: args.max_file_size,
                include_hidden: args.include_hidden,
                max_depth: args.max_depth,
            }),
            config.shows_stats() == args.show_stats,
            config.is_dry_run() == args.dry_run,
    {
        let ghost cache = exclusion_manager.manager();
        let mut exclusion_manager = exclusion_manager;
        let ghost before = exclusion_manager.enabled();
        let ghost asked = views(args.enable_templates@);
        let ghost refused = views(args.disable_templates@);

        let mut i: usize = 0;
        assert(asked.take(0) =~= Seq::empty());
        while i < args.enable_templates.len()
            invariant
                i <= args.enable_templates.len(),
                asked == views(args.enable_templates@),
                exclusion_manager.manager() == cache,
                exclusion_manager.enabled() == with_keys(before, asked.take(i as int)),
            decreases args.enable_templates.len() - i,
        {
            proof {
                assert(asked.take(i + 1).drop_last() =~= asked.take(i as int));
            }
            exclusion_manager.enable_template(args.enable_templates[i].clone());
            i += 1;
        }
        assert(asked.take(asked.len() as int) =~= asked);

        if args.auto_detect && args.folders.len() > 0 {
            let ghost chosen = exclusion_manager.enabled();
            let ghost found = nested_views(markers@);
            let mut i: usize = 0;
            assert(found.take(0) =~= Seq::empty());
            while i < markers.len()
                invariant
                    i <= markers.len(),
                    found == nested_views(markers@),
                    exclusion_manager.manager() == cache,
                    exclusion_manager.enabled() == detect_all(chosen, found.take(i as int)),
                decreases markers.len() - i,
            {
                proof {
                    assert(found.take(i + 1).drop_last() =~= found.take(i as int));
                }
                exclusion_manager.enable_templates_for_project(&markers[i]);
                i += 1;
            }
            assert(found.take(found.len() as int) =~= found);
        }
        let ghost wanted = exclusion_manager.enabled();
        let mut i: usize = 0;
        assert(refused.take(0) =~= Seq::empty());
        while i < args.disable_templates.len()
            invariant
                i <= args.disable_templates.len(),
                refused == views(args.disable_templates@),
                exclusion_manager.manager() == cache,
                exclusion_manager.enabled() == without_keys(wanted, refused.take(i as int)),
            decreases args.disable_templates.len() - i,
        {
            proof {
                assert(refused.take(i + 1).drop_last() =~= refused.take(i as int));
            }
            exclusion_manager.disable_template(args.disable_templates[i].as_str());
            i += 1;
        }
        assert(refused.take(refused.len() as int) =~= refused);

        let patterns = exclusion_manager.get_all_patterns();
        let mut skip_folders = StringHashSet::new();
        insert_all(&mut skip_folders, &args.skip_folders);
        insert_folders(&mut skip_folders, &patterns);
        let mut skip_extensions = StringHashSet::new();
        insert_all(&mut skip_extensions, &args.skip_extensions);
        insert_extensions(&mut skip_extensions, &patterns);
        let config = FlattenConfig {
            exclusion_manager,
            skip_folders,
            skip_extensions,
            show_skipped: args.show_skipped,
            max_file_size: args.max_file_size,
            include_hidden: args.include_hidden,
            max_depth: args.max_depth,
            show_stats: args.show_stats,
            dry_run: args.dry_run,
        };
        assert(config@.skip_folders =~= views(args.skip_folders@).to_set().union(
            folder_set(config.manager().patterns()),
        ));
        assert(config@.skip_extensions =~= views(args.skip_extensions@).to_set().union(
            extension_set(config.manager().patterns()),
        ));
        config
    }

    /// The lines that list the templates that the cache holds: how many
    /// there are, and their keys, sorted, five to a line.
    pub fn handle_list_templates(exclusion_manager: &ExclusionManager) -> (lines: Vec<String>)
        ensures
            views(lines@) == template_listing(store_keys(exclusion_manager.manager().store())),
    {
        let keys = exclusion_manager.get_available_templates();
        list_templates(&keys)
    }

    /// The lines that show which templates are enabled.
    pub fn handle_show_enabled(exclusion_manager: &ExclusionManager) -> (lines: Vec<String>)
        ensures
            views(lines@) == enabled_listing(exclusion_manager.enabled()),
    {
        let keys = exclusion_manager.get_enabled_templates();
        show_enabled(&keys)
    }

    /// The exclusion manager, with the templates that the run has enabled.
    pub fn exclusion_manager(&self) -> (manager: &ExclusionManager)
        ensures
            *manager == self.manager(),
    {
        &self.exclusion_manager
    }

    /// Whether what was skipped is still shown in the tree.
    pub fn show_skipped(&self) -> (flag: bool)
        ensures
            flag == self@.show_skipped,
    {
        self.show_skipped
    }

    /// The largest file whose content is read, in bytes; 0 for no limit.
    pub fn max_file_size(&self) -> (limit: u64)
        ensures
            limit == self@.max_file_size,
    {
        self.max_file_size
    }

    /// Whether hidden entries are walked like the others.
    pub fn include_hidden(&self) -> (flag: bool)
        ensures
            flag == self@.include_hidden,
    {
        self.include_hidden
    }

    /// The deepest level that is walked; 0 for no limit.
    pub fn max_depth(&self) -> (depth: usize)
        ensures
            depth == self@.max_depth,
    {
        self.max_depth
    }

    /// Whether statistics are shown at the end.
    pub fn show_stats(&self) -> (flag: bool)
        ensures
            flag == self.shows_stats(),
    {
        self.show_stats
    }

    /// Whether the run only shows what it would do.
    pub fn dry_run(&self) -> (flag: bool)
        ensures
            flag == self.is_dry_run(),
    {
        self.dry_run
    }

    /// Whether an entry whose name, the last component of its path, is
    /// `name` is left out because it is hidden.
    pub fn is_hidden(&self, name: &str) -> (hidden: bool)
        ensures
            hidden == hides(self@, name@),
    {
        if self.include_hidden {
            return false;
        }
        let chars = to_chars(name);
        chars.len() > 0 && chars[0] == '.'
    }

    /// Whether the path rule prunes a directory whose name, the last
    /// component of its path, is `name`.
    pub fn should_skip_path(&self, name: &str) -> (skip: bool)
        ensures
            skip == skips_path(self@, name@),
    {
        self.is_hidden(name) || self.skip_folders.contains(name)
    }

    /// Whether the content of a file named `name` is kept out because of
    /// its extension.
    pub fn should_skip_file(&self, name: &str) -> (skip: bool)
        ensures
            skip == skips_file(self@, name@),
    {
        let chars = to_chars(name);
        let n = chars.len();
        if n == 2 && chars[0] == '.' && chars[1] == '.' {
            return false;
        }
        let mut i: usize = n;
        assert(chars@.take(n as int) =~= chars@);
        while i > 0 && chars[i - 1] != '.'
            invariant
                i <= n,
                n == chars.len(),
                last_dot(chars@) == last_dot(chars@.take(i as int)),
            decreases i,
        {
            assert(chars@.take(i as int).drop_last() =~= chars@.take(i - 1));
            i -= 1;
        }
        if i <= 1 {
            return false;
        }
        let extension = string_of(&chars, i, n);
        self.skip_extensions.contains(extension.as_str())
    }
}

/// What a run is for.
#[derive(Debug, Clone, Copy, PartialEq, Eq, Structural)]
pub enum RunMode {
    /// Only the templates are managed; no folder is flattened.
    ManageTemplates,
    /// The folders are flattened.
    Flatten,
}

/// Why a run cannot start.
#[derive(Debug, Clone, Copy, PartialEq, Eq, Structural)]
pub enum RunError {
    /// No folder was given and nothing was asked of the templates.
    FoldersRequired,
}

impl RunError {
    /// What to tell the user.
    pub fn message(&self) -> (text: String)
        ensures
            text@ == "Error: --folders argument is required. Use --help for more information."@,
    {
        "Error: --folders argument is required. Use --help for more information.".to_owned()
    }
}

/// Whether `args` asks anything of the templates.
pub open spec fn manages_templates(args: Args) -> bool {
    args.list_templates || args.show_enabled || args.force_update || args.enable_templates.len() > 0
        || args.disable_templates.len() > 0
}

/// What a run with these inputs is for: a run without folders manages the
/// templates if it asks anything of them and cannot start otherwise, and a
/// run with folders flattens them.
pub open spec fn mode_of(args: Args) -> Result<RunMode, RunError> {
    if args.folders.len() > 0 {
        Ok(RunMode::Flatten)
    } else if manages_templates(args) {
        Ok(RunMode::ManageTemplates)
    } else {
        Err(RunError::FoldersRequired)
    }
}

/// Decides what a run is for, before anything is read.
pub fn run_mode(args: &Args) -> (mode: Result<RunMode, RunError>)
    ensures
        mode == mode_of(*args),
{
    if args.folders.len() > 0 {
        Ok(RunMode::Flatten)
    } else if args.list_templates || args.show_enabled || args.force_update
        || args.enable_templates.len() > 0 || args.disable_templates.len() > 0 {
        Ok(RunMode::ManageTemplates)
    } else {
        Err(RunError::FoldersRequired)
    }
}

/// What was found in a folder that exists.
#[derive(Debug, Clone)]
pub struct FolderContents {
    /// The walk of the folder.
    pub entries: Vec<WalkEntry>,
    /// The records of the folder's listed files, in walk order.
    pub records: Vec<FileRecord>,
}

/// One folder of a run, as the caller found it.
#[derive(Debug, Clone)]
pub struct FolderScan {
    /// The folder, as it was given and is written into the artifact.
    pub folder: String,
    /// What the folder holds, or `None` if there is no such folder.
    pub contents: Option<FolderContents>,
}

/// What a run made of its folders.
#[derive(Debug, Clone)]
pub struct RunReport {
    /// The artifact. A dry run shows what it holds and writes nothing.
    pub artifact: String,
    /// The folders that do not exist, which were passed over.
    pub missing: Vec<String>,
    /// Whether any folder exists. If none does, the run still ends with
    /// its report, over no files.
    pub any_folder_found: bool,
    /// The counters over all folders.
    pub stats: RunStats,
}

/// What one scanned folder adds to the artifact.
pub open spec fn scan_text(rules: Rules, icons: Icons, scan: FolderScan) -> Seq<char> {
    match scan.contents {
        Some(contents) => folder_text(
            scan.folder@,
            rules,
            icons,
            contents.entries@,
            record_views(contents.records@),
        ),
        None => Seq::empty(),
    }
}

/// The artifact of the first `n` folders: what each existing folder adds,
/// in the order of the folders.
pub open spec fn artifact_of(rules: Rules, icons: Icons, scans: Seq<FolderScan>, n: int) -> Seq<char>
    decreases n,
{
    if n <= 0 {
        Seq::empty()
    } else {
        artifact_of(rules, icons, scans, n - 1) + scan_text(rules, icons, scans[n - 1])
    }
}

/// The folders among the first `n` that do not exist.
pub open spec fn missing_of(scans: Seq<FolderScan>, n: int) -> Seq<Seq<char>>
    decreases n,
{
    if n <= 0 {
        Seq::empty()
    } else if scans[n - 1].contents is None {
        missing_of(scans, n - 1).push(scans[n - 1].folder@)
    } else {
        missing_of(scans, n - 1)
    }
}

/// The number of listed files in the first `n` folders.
pub open spec fn files_of(scans: Seq<FolderScan>, n: int) -> nat
    decreases n,
{
    if n <= 0 {
        0
    } else {
        files_of(scans, n - 1) + match scans[n - 1].contents {
            Some(contents) => contents.records.len() as nat,
            None => 0,
        }
    }
}

/// The number of bytes counted for the first `n` folders.
pub open spec fn bytes_of(scans: Seq<FolderScan>, n: int) -> nat
    decreases n,
{
    if n <= 0 {
        0
    } else {
        bytes_of(scans, n - 1) + match scans[n - 1].contents {
            Some(contents) => sum_bytes(
                record_views(contents.records@),
                contents.records.len() as int,
            ),
            None => 0,
        }
    }
}

/// Whether one of the first `n` folders exists.
pub open spec fn any_found(scans: Seq<FolderScan>, n: int) -> bool {
    exists|i: int| 0 <= i < n && (#[trigger] scans[i]).contents is Some
}

/// What [`run`] makes of its inputs: the mode decides whether it starts,
/// and a run that flattens hands back the artifact, the missing folders and
/// the counters of its folders.
pub open spec fn run_result(
    args: Args,
    rules: Rules,
    icons: Icons,
    scans: Seq<FolderScan>,
    result: Result<RunReport, RunError>,
) -> bool {
    match mode_of(args) {
        Err(error) => result == Err::<RunReport, RunError>(error),
        Ok(mode) => {
            let n = if mode == RunMode::Flatten {
                scans.len() as int
            } else {
                0
            };
            &&& result matches Ok(report)
            &&& report.artifact@ == artifact_of(rules, icons, scans, n)
            &&& views(report.missing@) == missing_of(scans, n)
            &&& report.any_folder_found == any_found(scans, n)
            &&& report.stats.total_files == at_most(files_of(scans, n) as int, usize::MAX as int)
            &&& report.stats.total_bytes == at_most(bytes_of(scans, n) as int, u64::MAX as int)
        },
    }
}

/// Whether the records of an existing folder are the records of the files
/// that its walk lists: one for each listed file, in walk order, under the
/// file's path. The records that [`ingest_step`] makes of the listed files
/// and that [`restore_order`] puts back are such records.
///
/// [`ingest_step`]: crate::ingest::ingest_step
/// [`restore_order`]: crate::ingest::restore_order
pub open spec fn follows_walk(rules: Rules, scan: FolderScan) -> bool {
    scan.contents matches Some(contents) && records_of_files(
        listed_files(rules, contents.entries@, contents.entries@.len() as int),
        record_views(contents.records@),
    )
}

/// Where the block of record `i` of folder `f` begins in the artifact:
/// after what the folders before it added, the folder's structure section
/// and the line that opens its content, and the blocks of the records
/// before it.
pub open spec fn block_start(
    rules: Rules,
    icons: Icons,
    scans: Seq<FolderScan>,
    f: int,
    i: int,
) -> int {
    let contents = scans[f].contents->0;
    let before = artifact_of(rules, icons, scans, f).len() as int;
    let structure = structure_section(scans[f].folder@, rules, icons, contents.entries@).len();
    let marker = content_marker(scans[f].folder@).len();
    before + structure + marker + blocks(record_views(contents.records@), i).len()
}

/// The artifact grows folder by folder: the artifact of the first `f`
/// folders is the beginning of the artifact of the first `n`.
pub proof fn lemma_artifact_prefix(
    rules: Rules,
    icons: Icons,
    scans: Seq<FolderScan>,
    f: int,
    n: int,
)
    requires
        0 <= f <= n,
    ensures
        artifact_of(rules, icons, scans, f).len() <= artifact_of(rules, icons, scans, n).len(),
        artifact_of(rules, icons, scans, n).take(artifact_of(rules, icons, scans, f).len() as int)
            == artifact_of(rules, icons, scans, f),
    decreases n - f,
{
    let short = artifact_of(rules, icons, scans, f);
    if f == n {
        assert(short.take(short.len() as int) =~= short);
    } else {
        lemma_artifact_prefix(rules, icons, scans, f, n - 1);
        let before = artifact_of(rules, icons, scans, n - 1);
        let full = artifact_of(rules, icons, scans, n);
        assert(full.take(before.len() as int) =~= before);
        assert(full.take(short.len() as int) =~= before.take(short.len() as int));
    }
}

/// Every record of every folder has its block in the artifact: at its
/// place stand the line that begins the block and names the record's path,
/// then exactly the record's text, then the line that ends the block and
/// names the same path, and the next block, if there is one, begins where
/// this one ends.
pub proof fn lemma_block_in_artifact(
    rules: Rules,
    icons: Icons,
    scans: Seq<FolderScan>,
    f: int,
    i: int,
)
    requires
        0 <= f < scans.len(),
        scans[f].contents is Some,
        0 <= i < scans[f].contents->0.records.len(),
    ensures
        ({
            let all = artifact_of(rules, icons, scans, scans.len() as int);
            let record = record_views(scans[f].contents->0.records@)[i];
            let begin = begin_marker(record.path);
            let text = record_text(record.outcome);
            let end = end_marker(record.path);
            let start = block_start(rules, icons, scans, f, i);
            let text_at = start + begin.len();
            let end_at = text_at + text.len();
            &&& 0 <= start
            &&& end_at + end.len() <= all.len()
            &&& all.subrange(start, text_at) == begin
            &&& all.subrange(text_at, end_at) == text
            &&& all.subrange(end_at, end_at + end.len()) == end
            &&& block_start(rules, icons, scans, f, i + 1) == end_at + end.len()
        }),
{
    let all = artifact_of(rules, icons, scans, scans.len() as int);
    let contents = scans[f].contents->0;
    let records = record_views(contents.records@);
    let before = artifact_of(rules, icons, scans, f);
    let with_folder = artifact_of(rules, icons, scans, f + 1);
    let structure = structure_section(scans[f].folder@, rules, icons, contents.entries@);
    let marker = content_marker(scans[f].folder@);
    let body = blocks(records, records.len() as int);
    let head = before + structure + marker;
    let tail = marker + all.skip(with_folder.len() as int);
    let record = records[i];
    let at = blocks(records, i).len() as int;
    let text_at = at + begin_marker(record.path).len();
    let end_at = text_at + record_text(record.outcome).len();
    lemma_block_structure(records, i);
    lemma_artifact_prefix(rules, icons, scans, f + 1, scans.len() as int);
    assert(with_folder =~= head + body + marker);
    assert(all =~= all.take(with_folder.len() as int) + all.skip(with_folder.len() as int));
    assert(all =~= head + body + tail);
    lemma_part_of_whole(all, head, body, tail, at, text_at);
    lemma_part_of_whole(all, head, body, tail, text_at, end_at);
    lemma_part_of_whole(all, head, body, tail, end_at, end_at + end_marker(record.path).len());
}

/// A stretch of a part of a text is the same stretch of the whole text,
/// moved by what stands before the part.
proof fn lemma_part_of_whole(
    whole: Seq<char>,
    head: Seq<char>,
    part: Seq<char>,
    tail: Seq<char>,
    from: int,
    to: int,
)
    requires
        whole == head + part + tail,
        0 <= from <= to <= part.len(),
    ensures
        whole.subrange(head.len() + from, head.len() + to) == part.subrange(from, to),
{
    assert(whole.subrange(head.len() + from, head.len() + to) =~= part.subrange(from, to));
}

/// Pruning holds of the artifact: when a folder's records follow its walk,
/// every block of the folder's content is the block of a listed file, named
/// by its path, and no listed file lies below a pruned directory, whether
/// or not what was skipped is shown. So no file from below a pruned
/// directory has a block.
pub proof fn lemma_artifact_leaves_out_pruned(
    rules: Rules,
    scan: FolderScan,
    i: int,
) -> (m: int)
    requires
        follows_walk(rules, scan),
        0 <= i < scan.contents->0.records.len(),
    ensures
        0 <= m < scan.contents->0.entries.len(),
        is_listed(rules, scan.contents->0.entries@, m),
        listed_files(rules, scan.contents->0.entries@, m).len() == i,
        record_views(scan.contents->0.records@)[i].path == scan.contents->0.entries@[m].path@,
        forall|k: int| !(#[trigger] is_pruned_above(rules, scan.contents->0.entries@, k, m)),
{
    let entries = scan.contents->0.entries@;
    let files = listed_files(rules, entries, entries.len() as int);
    lemma_listed_files(rules, entries, entries.len() as int, i);
    let m = choose|m: int|
        0 <= m < entries.len() && is_listed(rules, entries, m) && files[i] == entries[m]
            && listed_files(rules, entries, m).len() == i;
    assert forall|k: int| !(#[trigger] is_pruned_above(rules, entries, k, m)) by {
        if is_pruned_above(rules, entries, k, m) {
            lemma_pruned_subtree_hidden(rules, entries, k, m);
        }
    }
    m
}

/// The size cap holds of the artifact: when a folder's records follow its
/// walk and the record of a listed file is the one that the step made of a
/// size over a limit that is set, then between the line that begins the
/// file's block and the line that ends it stands the placeholder with the
/// true size, and nothing of the file's content.
pub proof fn lemma_artifact_size_cap(
    rules: Rules,
    icons: Icons,
    scans: Seq<FolderScan>,
    f: int,
    i: int,
    size: u64,
)
    requires
        0 <= f < scans.len(),
        follows_walk(rules, scans[f]),
        0 <= i < scans[f].contents->0.records.len(),
        rules.max_file_size > 0,
        size > rules.max_file_size,
        ActionView::Finish(record_views(scans[f].contents->0.records@)[i]) == next_action(
            rules,
            listed_files(
                rules,
                scans[f].contents->0.entries@,
                scans[f].contents->0.entries@.len() as int,
            )[i],
            IngestEvent::Opened(size),
        ),
    ensures
        ({
            let all = artifact_of(rules, icons, scans, scans.len() as int);
            let file = listed_files(
                rules,
                scans[f].contents->0.entries@,
                scans[f].contents->0.entries@.len() as int,
            )[i];
            let begin = begin_marker(file.path@);
            let text = "[File too large: "@ + decimal(size as nat) + " bytes]"@;
            let end = end_marker(file.path@);
            let start = block_start(rules, icons, scans, f, i);
            let text_at = start + begin.len();
            let end_at = text_at + text.len();
            &&& end_at + end.len() <= all.len()
            &&& all.subrange(start, text_at) == begin
            &&& all.subrange(text_at, end_at) == text
            &&& all.subrange(end_at, end_at + end.len()) == end
        }),
{
    lemma_block_in_artifact(rules, icons, scans, f, i);
}

/// The order of the walk holds of the artifact, whatever the order in
/// which the files were read: when a folder's records follow its walk, the
/// blocks of two listed files stand in the order in which the walk came
/// upon the files, the first ends before the second begins, and each begins
/// with the line that names its file.
pub proof fn lemma_artifact_keeps_walk_order(
    rules: Rules,
    icons: Icons,
    scans: Seq<FolderScan>,
    f: int,
    i: int,
    j: int,
)
    requires
        0 <= f < scans.len(),
        follows_walk(rules, scans[f]),
        0 <= i < j < scans[f].contents->0.records.len(),
    ensures
        ({
            let all = artifact_of(rules, icons, scans, scans.len() as int);
            let files = listed_files(
                rules,
                scans[f].contents->0.entries@,
                scans[f].contents->0.entries@.len() as int,
            );
            let records = record_views(scans[f].contents->0.records@);
            let first = block_start(rules, icons, scans, f, i);
            let second = block_start(rules, icons, scans, f, j);
            let first_begin = begin_marker(files[i].path@);
            let second_begin = begin_marker(files[j].path@);
            &&& first + block(records[i]).len() <= second
            &&& first < second
            &&& second + second_begin.len() <= all.len()
            &&& all.subrange(first, first + first_begin.len()) == first_begin
            &&& all.subrange(second, second + second_begin.len()) == second_begin
        }),
{
    let records = record_views(scans[f].contents->0.records@);
    lemma_block_in_artifact(rules, icons, scans, f, i);
    lemma_block_in_artifact(rules, icons, scans, f, j);
    lemma_blocks_prefix(records, i + 1, j);
    reveal_strlit("### ");
    assert(begin_marker(records[i].path).len() > 0);
}

/// Whether two scans found the same: the same folder, and either nothing or
/// the same walk and the same records.
pub open spec fn same_scan(a: FolderScan, b: FolderScan) -> bool {
    &&& a.folder@ == b.folder@
    &&& match (a.contents, b.contents) {
        (None, None) => true,
        (Some(x), Some(y)) => same_walk(x.entries@, y.entries@) && record_views(x.records@)
            == record_views(y.records@),
        _ => false,
    }
}

/// Whether two runs scanned the same folders and found the same in each.
pub open spec fn same_scans(a: Seq<FolderScan>, b: Seq<FolderScan>) -> bool {
    a.len() == b.len() && forall|i: int| 0 <= i < a.len() ==> same_scan(#[trigger] a[i], b[i])
}

/// What the first folders add to the artifact, to the missing folders and
/// to the counters depends only on what was found in them.
proof fn lemma_same_folders(
    rules: Rules,
    icons_a: Icons,
    icons_b: Icons,
    a: Seq<FolderScan>,
    b: Seq<FolderScan>,
    n: int,
)
    requires
        same_scans(a, b),
        same_icons(icons_a, icons_b),
        0 <= n <= a.len(),
    ensures
        artifact_of(rules, icons_a, a, n) == artifact_of(rules, icons_b, b, n),
        missing_of(a, n) == missing_of(b, n),
        files_of(a, n) == files_of(b, n),
        bytes_of(a, n) == bytes_of(b, n),
        any_found(a, n) == any_found(b, n),
    decreases n,
{
    if n > 0 {
        lemma_same_folders(rules, icons_a, icons_b, a, b, n - 1);
        match (a[n - 1].contents, b[n - 1].contents) {
            (Some(x), Some(y)) => {
                lemma_same_tree(
                    rules,
                    icons_a,
                    icons_b,
                    x.entries@,
                    y.entries@,
                    x.entries@.len() as int,
                );
            },
            _ => {},
        }
        if any_found(a, n) {
            let i = choose|i: int| 0 <= i < n && (#[trigger] a[i]).contents is Some;
            assert(same_scan(a[i], b[i]));
        }
        if any_found(b, n) {
            let i = choose|i: int| 0 <= i < n && (#[trigger] b[i]).contents is Some;
            assert(same_scan(a[i], b[i]));
        }
    }
}

/// Two runs over an unchanged file system with unchanged rules end alike:
/// when both are for the same, use the same rules and signs, and find the
/// same in the same folders, they end with the same error, or with the same
/// artifact, character by character, the same missing folders and the same
/// counters.
pub proof fn lemma_run_is_repeatable(
    args_a: Args,
    args_b: Args,
    rules: Rules,
    icons_a: Icons,
    icons_b: Icons,
    scans_a: Seq<FolderScan>,
    scans_b: Seq<FolderScan>,
    first: Result<RunReport, RunError>,
    second: Result<RunReport, RunError>,
)
    requires
        mode_of(args_a) == mode_of(args_b),
        same_icons(icons_a, icons_b),
        same_scans(scans_a, scans_b),
        run_result(args_a, rules, icons_a, scans_a, first),
        run_result(args_b, rules, icons_b, scans_b, second),
    ensures
        first is Err == second is Err,
        first matches Err(a) ==> second matches Err(b) && a == b,
        first matches Ok(a) ==> second matches Ok(b) && a.artifact@ == b.artifact@ && views(
            a.missing@,
        ) == views(b.missing@) && a.any_folder_found == b.any_folder_found && a.stats == b.stats,
{
    lemma_same_folders(rules, icons_a, icons_b, scans_a, scans_b, scans_a.len() as int);
    lemma_same_folders(rules, icons_a, icons_b, scans_a, scans_b, 0);
}

/// Runs over the folders that the caller scanned.
///
/// A run that cannot start fails before it looks at any folder. A run that
/// only manages the templates leaves the folders alone. Otherwise each
/// folder that exists adds its structure section and, if it has listed
/// files, its content section to the artifact, in the order of the folders;
/// a folder that does not exist is passed over and reported.
pub fn run(args: &Args, config: &FlattenConfig, icons: &Icons, scans: &Vec<FolderScan>) -> (result:
    Result<RunReport, RunError>)
    ensures
        run_result(*args, config@, *icons, scans@, result),
{
    let mode = match run_mode(args) {
        Ok(mode) => mode,
        Err(error) => {
            return Err(error);
        },
    };
    let mut artifact = String::new();
    let mut missing: Vec<String> = Vec::new();
    let mut any_folder_found = false;
    let mut stats = RunStats::new();
    assert(views(missing@) =~= Seq::<Seq<char>>::empty());
    if mode == RunMode::Flatten {
        let mut i: usize = 0;
        while i < scans.len()
            invariant
                i <= scans.len(),
                artifact@ == artifact_of(config@, *icons, scans@, i as int),
                views(missing@) == missing_of(scans@, i as int),
                any_folder_found == any_found(scans@, i as int),
                stats.total_files == at_most(files_of(scans@, i as int) as int, usize::MAX as int),
                stats.total_bytes == at_most(bytes_of(scans@, i as int) as int, u64::MAX as int),
            decreases scans.len() - i,
        {
            let scan = &scans[i];
            match &scan.contents {
                Some(contents) => {
                    let text = flatten_folder(
                        scan.folder.as_str(),
                        &contents.entries,
                        &contents.records,
                        config,
                        icons,
                    );
                    artifact.append(text.as_str());
                    stats.add_folder(&contents.records);
                    any_folder_found = true;
                },
                None => {
                    missing.push(scan.folder.clone());
                },
            }
            assert(any_folder_found == any_found(scans@, i + 1)) by {
                if any_found(scans@, i + 1) && !any_folder_found {
                    let k = choose|k: int| 0 <= k < i + 1 && (#[trigger] scans@[k]).contents is Some;
                    assert(k < i);
                }
            }
            i += 1;
        }
    }
    Ok(RunReport { artifact, missing, any_folder_found, stats })
}

/// The set of the first `i + 1` items is the set of the first `i` with
/// one more.
proof fn lemma_take_to_set(all: Seq<Seq<char>>, i: int)
    requires
        0 <= i < all.len(),
    ensures
        all.take(i + 1).to_set() == all.take(i).to_set().insert(all[i]),
{
    let shorter = all.take(i);
    let longer = all.take(i + 1);
    assert forall|x: Seq<char>| longer.to_set().contains(x) implies shorter.to_set().insert(
        all[i],
    ).contains(x) by {
        let k = choose|k: int| 0 <= k < longer.len() && #[trigger] longer[k] == x;
        if k < i {
            assert(shorter[k] == x);
        }
    }
    assert forall|x: Seq<char>| shorter.to_set().insert(all[i]).contains(x) implies longer.to_set().contains(
        x,
    ) by {
        if shorter.contains(x) {
            let k = choose|k: int| 0 <= k < shorter.len() && #[trigger] shorter[k] == x;
            assert(longer[k] == x);
        } else {
            assert(longer[i] == x);
        }
    }
}

/// Adds the strings of `list` to `set`.
fn insert_all(set: &mut StringHashSet, list: &Vec<String>)
    ensures
        final(set)@ == old(set)@.union(views(list@).to_set()),
{
    let ghost all = views(list@);
    let mut i: usize = 0;
    assert(set@ =~= old(set)@.union(all.take(0).to_set()));
    while i < list.len()
        invariant
            i <= list.len(),
            all == views(list@),
            set@ == old(set)@.union(all.take(i as int).to_set()),
        decreases list.len() - i,
    {
        set.insert(list[i].clone());
        proof {
            lemma_take_to_set(all, i as int);
        }
        i += 1;
    }
    assert(all.take(all.len() as int) =~= all);
}

} // verus!

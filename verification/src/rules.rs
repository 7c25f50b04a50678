//! The rules of one run, as plain mathematics: which names are pruned from
//! the walk and which files are kept out of the content.

use vstd::prelude::*;

verus! {

/// What a run's configuration says, once it is built. The sets do not
/// change while the run lasts.
pub struct Rules {
    /// Names of folders that are pruned.
    pub skip_folders: Set<Seq<char>>,
    /// Extensions of files whose content is not read.
    pub skip_extensions: Set<Seq<char>>,
    /// Whether what was skipped is still shown in the tree.
    pub show_skipped: bool,
    /// The largest file whose content is read, in bytes; 0 for no limit.
    pub max_file_size: u64,
    /// Whether names that begin with a dot are walked like the others.
    pub include_hidden: bool,
    /// The deepest level that is walked; 0 for no limit.
    pub max_depth: usize,
}

/// Whether a name marks a hidden entry: it begins with a dot.
pub open spec fn is_hidden_name(name: Seq<char>) -> bool {
    name.len() > 0 && name[0] == '.'
}

/// Whether an entry of this name is left out because it is hidden: the
/// name begins with a dot and hidden entries are not included.
pub open spec fn hides(rules: Rules, name: Seq<char>) -> bool {
    !rules.include_hidden && is_hidden_name(name)
}

/// Whether the path rule prunes a directory of this name: the name is
/// hidden and hidden entries are not included, or it is a skipped folder's.
pub open spec fn skips_path(rules: Rules, name: Seq<char>) -> bool {
    hides(rules, name) || rules.skip_folders.contains(name)
}

/// The place of the last dot of `name`, or -1 if it has none.
pub open spec fn last_dot(name: Seq<char>) -> int
    decreases name.len(),
{
    if name.len() == 0 {
        -1
    } else if name.last() == '.' {
        name.len() - 1
    } else {
        last_dot(name.drop_last())
    }
}

/// The extension of a file name: what follows its last dot. A name without
/// a dot has none, nor has one whose only dot comes first, nor has `..`.
pub open spec fn extension_of(name: Seq<char>) -> Option<Seq<char>> {
    if name =~= seq!['.', '.'] || last_dot(name) <= 0 {
        None
    } else {
        Some(name.skip(last_dot(name) + 1))
    }
}

/// Whether the content of a file of this name is kept out: its extension
/// is a skipped one.
pub open spec fn skips_file(rules: Rules, name: Seq<char>) -> bool {
    extension_of(name) matches Some(x) && rules.skip_extensions.contains(x)
}

/// Whether an entry at `depth` lies below the deepest level that is walked.
pub open spec fn too_deep(rules: Rules, depth: usize) -> bool {
    rules.max_depth > 0 && depth > rules.max_depth
}

} // verus!

//! Data model: one filesystem object as a plain value, the per-run settings,
//! and the records that the traversal emits.

use vstd::prelude::*;
use vstd::string::StrSliceExecFns;

verus! {

/// What kind of filesystem object an entry is.
///
/// `Unreadable` stands for an entry whose directory listing or metadata could
/// not be obtained; it is still shown (marked as an error) and never descended
/// into.
#[derive(Clone, Copy, Debug, PartialEq, Eq, Structural)]
pub enum EntryKind {
    Directory,
    Regular,
    Symlink,
    Unreadable,
}

/// One filesystem object, with its children: the input of the traversal.
///
/// The caller fills a `Node` from the filesystem before the walk starts and
/// hands its children already sorted by name; the walk preserves the child
/// order as given. `mode` holds the Unix permission bits (0 where unknown),
/// `link_target` the symlink target, and `target_is_dir` whether that target
/// resolves to a directory.
pub struct Node {
    pub name: String,
    pub kind: EntryKind,
    pub mode: u32,
    pub link_target: Option<String>,
    pub target_is_dir: bool,
    pub children: Vec<Node>,
}

/// Per-run settings.
///
/// `max_level` bounds the depth of the walk (the root is at level 0, its
/// children at level 1); `include_pattern` holds a glob pattern that has been
/// checked to be well formed.
pub struct Config {
    pub use_color: bool,
    pub show_hidden: bool,
    pub max_level: usize,
    pub include_pattern: Option<String>,
}

/// Mathematical image of one emitted entry.
pub struct SpecItem {
    pub name: Seq<char>,
    pub kind: EntryKind,
    pub mode: u32,
    pub link_target: Option<Seq<char>>,
    pub target_is_dir: bool,
    pub level: nat,
    pub is_last: bool,
}

/// One entry surfaced by the traversal: its metadata as plain values, its
/// level in the tree, and whether it is the last surfaced sibling.
pub struct Item {
    pub name: String,
    pub kind: EntryKind,
    pub mode: u32,
    pub link_target: Option<String>,
    pub target_is_dir: bool,
    pub level: usize,
    pub is_last: bool,
}

impl View for Item {
    type V = SpecItem;

    open spec fn view(&self) -> SpecItem {
        SpecItem {
            name: self.name@,
            kind: self.kind,
            mode: self.mode,
            link_target: match self.link_target {
                Option::Some(t) => Option::Some(t@),
                Option::None => Option::None,
            },
            target_is_dir: self.target_is_dir,
            level: self.level as nat,
            is_last: self.is_last,
        }
    }
}

/// The views of a sequence of emitted entries.
pub open spec fn item_views(s: Seq<Item>) -> Seq<SpecItem> {
    s.map_values(|it: Item| it@)
}

/// Running totals of the walk: directories and files seen (the root is
/// excluded from the directory total at the end of a run).
pub struct DirEntrySummary {
    pub num_folders: usize,
    pub num_files: usize,
}

impl DirEntrySummary {
    /// A summary with both totals at zero.
    pub fn new() -> (r: DirEntrySummary)
        ensures
            r.num_folders == 0,
            r.num_files == 0,
    {
        DirEntrySummary { num_folders: 0, num_files: 0 }
    }
}

/// A name is hidden when it starts with a dot.
pub open spec fn spec_is_hidden(name: Seq<char>) -> bool {
    name.len() > 0 && name[0] == '.'
}

/// Whether the walk surfaces an entry of this name at all: hidden names are
/// skipped unless the run asks for them.
pub open spec fn spec_visible(n: Node, cfg: Config) -> bool {
    cfg.show_hidden || !spec_is_hidden(n.name@)
}

/// Whether a name is hidden (starts with a dot).
pub fn is_hidden(name: &str) -> (r: bool)
    ensures
        r == spec_is_hidden(name@),
{
    let len = name.unicode_len();
    if len == 0 {
        false
    } else {
        name.get_char(0) == '.'
    }
}

/// Whether the walk surfaces an entry named as `n` is, under `cfg`.
pub fn visible(n: &Node, cfg: &Config) -> (r: bool)
    ensures
        r == spec_visible(*n, *cfg),
{
    cfg.show_hidden || !is_hidden(n.name.as_str())
}

} // verus!

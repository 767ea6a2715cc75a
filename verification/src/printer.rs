//! Rendering the walked entries into lines and totals.
//!
//! The driver runs the level stack in lockstep with the entry sequence,
//! prefixes every entry with its connector glyphs, picks a presentation style
//! from the entry kind, counts directories and files, and assembles the whole
//! output text, summary line included.

use vstd::prelude::*;
use vstd::string::StringExecFns;
use crate::tree::{Config, DirEntrySummary, EntryKind, Item, Node, SpecItem, item_views};
use crate::prefix::{set_line_prefix, spec_prefix, spec_update_levels, update_levels};
use crate::walker::{spec_items, walk};

verus! {

/// How a line's name is presented: directories, executable files and
/// symlinks each get an accent of their own, everything else stays plain.
#[derive(Clone, Copy, Debug, PartialEq, Eq, Structural)]
pub enum Style {
    Dir,
    Exec,
    Link,
    Plain,
}

/// Mathematical image of one output line.
pub struct SpecLine {
    pub prefix: Seq<char>,
    pub name: Seq<char>,
    pub style: Style,
    pub link_target: Option<Seq<char>>,
    pub target_is_dir: bool,
    pub error: bool,
}

/// One output line: the glyph prefix, the display name with its style, the
/// symlink target if any (styled as directory or plain file by what it
/// resolves to), and whether the entry failed to read.
pub struct Line {
    pub prefix: String,
    pub name: String,
    pub style: Style,
    pub link_target: Option<String>,
    pub target_is_dir: bool,
    pub error: bool,
}

impl View for Line {
    type V = SpecLine;

    open spec fn view(&self) -> SpecLine {
        SpecLine {
            prefix: self.prefix@,
            name: self.name@,
            style: self.style,
            link_target: match self.link_target {
                Option::Some(t) => Option::Some(t@),
                Option::None => Option::None,
            },
            target_is_dir: self.target_is_dir,
            error: self.error,
        }
    }
}

/// The views of a sequence of lines.
pub open spec fn line_views(s: Seq<Line>) -> Seq<SpecLine> {
    s.map_values(|l: Line| l@)
}

/// Whether the permission bits mark a regular file as executable.
pub open spec fn spec_is_executable(mode: u32) -> bool {
    mode & 0o100u32 != 0u32
}

/// Whether the owner-execute permission bit is set.
pub fn is_executable(mode: u32) -> (r: bool)
    ensures
        r == spec_is_executable(mode),
{
    mode & 0o100u32 != 0u32
}

/// The style of an entry: directories, then symlinks, then executable
/// regular files get an accent; plain and unreadable entries stay plain.
pub open spec fn spec_style(it: SpecItem) -> Style {
    if it.kind is Directory {
        Style::Dir
    } else if it.kind is Symlink {
        Style::Link
    } else if it.kind is Regular && spec_is_executable(it.mode) {
        Style::Exec
    } else {
        Style::Plain
    }
}

/// Picks the presentation style of one entry.
pub fn style_of(it: &Item) -> (r: Style)
    ensures
        r == spec_style(it@),
{
    match it.kind {
        EntryKind::Directory => Style::Dir,
        EntryKind::Symlink => Style::Link,
        EntryKind::Regular => if is_executable(it.mode) {
            Style::Exec
        } else {
            Style::Plain
        },
        EntryKind::Unreadable => Style::Plain,
    }
}

/// The level stack after the first `k` entries of `items` have been taken
/// up, starting from an empty stack.
pub open spec fn run_stack(items: Seq<SpecItem>, k: int) -> Seq<bool>
    decreases k,
{
    if k <= 0 {
        Seq::empty()
    } else {
        spec_update_levels(run_stack(items, k - 1), items[k - 1].level, items[k - 1].is_last)
    }
}

/// The line of one entry, given the level stack at its turn.
pub open spec fn spec_line_of(it: SpecItem, stack: Seq<bool>) -> SpecLine {
    SpecLine {
        prefix: spec_prefix(stack),
        name: it.name,
        style: spec_style(it),
        link_target: it.link_target,
        target_is_dir: it.target_is_dir,
        error: it.kind is Unreadable,
    }
}

/// All lines of an entry sequence: entry `k` is prefixed by the stack as it
/// stands right after that entry is taken up.
pub open spec fn spec_lines(items: Seq<SpecItem>) -> Seq<SpecLine> {
    Seq::new(items.len(), |k: int| spec_line_of(items[k], run_stack(items, k + 1)))
}

/// How many of the entries are directories.
pub open spec fn spec_count_dirs(items: Seq<SpecItem>) -> nat
    decreases items.len(),
{
    if items.len() == 0 {
        0
    } else {
        spec_count_dirs(items.drop_last()) + if items.last().kind is Directory {
            1nat
        } else {
            0nat
        }
    }
}

/// How many of the entries are not directories.
pub open spec fn spec_count_files(items: Seq<SpecItem>) -> nat
    decreases items.len(),
{
    if items.len() == 0 {
        0
    } else {
        spec_count_files(items.drop_last()) + if items.last().kind is Directory {
            0nat
        } else {
            1nat
        }
    }
}

/// The directory total of a run: one directory entry — the root — is not
/// counted, and the total never goes below zero.
pub open spec fn spec_folders(items: Seq<SpecItem>) -> nat {
    if spec_count_dirs(items) > 0 {
        (spec_count_dirs(items) - 1) as nat
    } else {
        0
    }
}

/// Walks the tree and renders every surfaced entry: the lines in order, and
/// the totals with the root taken out of the directory count.
pub fn iterate_folders(root: &Node, cfg: &Config) -> (r: (Vec<Line>, DirEntrySummary))
    ensures
        line_views(r.0@) == spec_lines(spec_items(*root, *cfg)),
        r.1.num_folders == spec_folders(spec_items(*root, *cfg)),
        r.1.num_files == spec_count_files(spec_items(*root, *cfg)),
{
    let items = walk(root, cfg);
    let ghost iv = item_views(items@);
    let mut levels: Vec<bool> = Vec::new();
    let mut prefix = String::new();
    let mut lines: Vec<Line> = Vec::new();
    let mut summary = DirEntrySummary::new();
    let mut idx: usize = 0;
    proof {
        assert(iv.take(0) =~= Seq::<SpecItem>::empty());
        assert(line_views(lines@) =~= Seq::<SpecLine>::empty());
    }
    while idx < items.len()
        invariant
            iv == item_views(items@),
            idx <= items@.len(),
            iv.len() == items@.len(),
            levels@ == run_stack(iv, idx as int),
            line_views(lines@) == spec_lines(iv).take(idx as int),
            lines@.len() == idx,
            summary.num_folders == spec_count_dirs(iv.take(idx as int)),
            summary.num_files == spec_count_files(iv.take(idx as int)),
            summary.num_folders <= idx,
            summary.num_files <= idx,
        decreases items@.len() - idx,
    {
        let it = &items[idx];
        proof {
            assert(it@ == iv[idx as int]);
        }
        update_levels(&mut levels, it.level, it.is_last);
        proof {
            assert(levels@ == run_stack(iv, idx as int + 1));
        }
        set_line_prefix(&levels, &mut prefix);
        let line = Line {
            prefix: prefix.clone(),
            name: it.name.clone(),
            style: style_of(it),
            link_target: match &it.link_target {
                Option::Some(t) => Option::Some(t.clone()),
                Option::None => Option::None,
            },
            target_is_dir: it.target_is_dir,
            error: matches!(it.kind, EntryKind::Unreadable),
        };
        proof {
            assert(line@ == spec_line_of(iv[idx as int], run_stack(iv, idx as int + 1)));
        }
        lines.push(line);
        if matches!(it.kind, EntryKind::Directory) {
            summary.num_folders = summary.num_folders + 1;
        } else {
            summary.num_files = summary.num_files + 1;
        }
        proof {
            let t = iv.take(idx as int + 1);
            assert(t.drop_last() =~= iv.take(idx as int));
            assert(t.last() == iv[idx as int]);
            assert(line_views(lines@) =~= spec_lines(iv).take(idx as int + 1));
        }
        idx = idx + 1;
    }
    proof {
        assert(iv.take(idx as int) =~= iv);
        assert(spec_lines(iv).take(idx as int) =~= spec_lines(iv));
    }
    if summary.num_folders > 0 {
        summary.num_folders = summary.num_folders - 1;
    }
    (lines, summary)
}

/// The plain text of one line: prefix, name, the symlink arrow and target if
/// any, and an error marker for an unreadable entry.
pub open spec fn spec_line_text(l: SpecLine) -> Seq<char> {
    l.prefix + l.name + (match l.link_target {
        Option::Some(t) => " -> "@ + t,
        Option::None => Seq::empty(),
    }) + (if l.error {
        " [Error]"@
    } else {
        Seq::empty()
    })
}

/// Writes one line as plain text.
pub fn line_text(l: &Line) -> (r: String)
    ensures
        r@ == spec_line_text(l@),
{
    let mut s = String::new();
    s.append(l.prefix.as_str());
    s.append(l.name.as_str());
    match &l.link_target {
        Option::Some(t) => {
            s.append(" -> ");
            s.append(t.as_str());
        },
        Option::None => {},
    }
    if l.error {
        s.append(" [Error]");
    }
    proof {
        assert(s@ =~= spec_line_text(l@));
    }
    s
}

/// All lines as plain text, each closed by a newline.
pub open spec fn spec_lines_text(ls: Seq<SpecLine>) -> Seq<char>
    decreases ls.len(),
{
    if ls.len() == 0 {
        Seq::empty()
    } else {
        spec_lines_text(ls.drop_last()) + spec_line_text(ls.last()) + "\n"@
    }
}

/// The decimal digit for one value below ten.
pub open spec fn spec_digit(d: nat) -> char {
    if d == 0 {
        '0'
    } else if d == 1 {
        '1'
    } else if d == 2 {
        '2'
    } else if d == 3 {
        '3'
    } else if d == 4 {
        '4'
    } else if d == 5 {
        '5'
    } else if d == 6 {
        '6'
    } else if d == 7 {
        '7'
    } else if d == 8 {
        '8'
    } else {
        '9'
    }
}

/// The decimal notation of a number, most significant digit first, with no
/// leading zero except on zero itself.
pub open spec fn spec_dec(n: nat) -> Seq<char>
    decreases n,
{
    if n < 10 {
        seq![spec_digit(n)]
    } else {
        spec_dec(n / 10).push(spec_digit(n % 10))
    }
}

/// One decimal digit as text.
fn digit_str(d: usize) -> (r: &'static str)
    requires
        d < 10,
    ensures
        r@ == seq![spec_digit(d as nat)],
{
    proof {
        reveal_strlit("0");
        reveal_strlit("1");
        reveal_strlit("2");
        reveal_strlit("3");
        reveal_strlit("4");
        reveal_strlit("5");
        reveal_strlit("6");
        reveal_strlit("7");
        reveal_strlit("8");
        reveal_strlit("9");
    }
    let r = match d {
        0 => "0",
        1 => "1",
        2 => "2",
        3 => "3",
        4 => "4",
        5 => "5",
        6 => "6",
        7 => "7",
        8 => "8",
        _ => "9",
    };
    proof {
        assert(r@ =~= seq![spec_digit(d as nat)]);
    }
    r
}

/// Writes a number in decimal.
pub fn dec_string(n: usize) -> (r: String)
    ensures
        r@ == spec_dec(n as nat),
    decreases n,
{
    if n < 10 {
        let mut s = String::new();
        s.append(digit_str(n));
        proof {
            assert(s@ =~= seq![spec_digit(n as nat)]);
        }
        s
    } else {
        let mut s = dec_string(n / 10);
        s.append(digit_str(n % 10));
        proof {
            assert(s@ =~= spec_dec(n as nat / 10).push(spec_digit(n as nat % 10)));
        }
        s
    }
}

/// The whole output of a run: every line, a separating blank line, then the
/// summary line with the two totals.
pub open spec fn spec_output(root: Node, cfg: Config) -> Seq<char> {
    let items = spec_items(root, cfg);
    spec_lines_text(spec_lines(items)) + "\n"@ + spec_dec(spec_folders(items)) + " directories, "@
        + spec_dec(spec_count_files(items)) + " files\n"@
}

/// Renders the whole run as one text: the tree, a blank line, and the
/// summary totals.
pub fn render_output(root: &Node, cfg: &Config) -> (r: String)
    ensures
        r@ == spec_output(*root, *cfg),
{
    let (lines, summary) = iterate_folders(root, cfg);
    let ghost lv = line_views(lines@);
    let mut s = String::new();
    let mut i: usize = 0;
    proof {
        assert(lv.take(0) =~= Seq::<SpecLine>::empty());
    }
    while i < lines.len()
        invariant
            lv == line_views(lines@),
            i <= lines@.len(),
            lv.len() == lines@.len(),
            s@ == spec_lines_text(lv.take(i as int)),
        decreases lines@.len() - i,
    {
        let t = line_text(&lines[i]);
        s.append(t.as_str());
        s.append("\n");
        proof {
            let u = lv.take(i as int + 1);
            assert(u.drop_last() =~= lv.take(i as int));
            assert(u.last() == lv[i as int]);
            assert((lines@[i as int])@ == lv[i as int]);
        }
        i = i + 1;
    }
    proof {
        assert(lv.take(i as int) =~= lv);
    }
    s.append("\n");
    let d = dec_string(summary.num_folders);
    s.append(d.as_str());
    s.append(" directories, ");
    let f = dec_string(summary.num_files);
    s.append(f.as_str());
    s.append(" files\n");
    proof {
        assert(s@ =~= spec_output(*root, *cfg));
    }
    s
}

} // verus!

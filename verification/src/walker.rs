//! The traversal-and-pruning engine.
//!
//! The walk lists a tree depth-first, pre-order: a directory's entry precedes
//! its children's, siblings stay in the order the tree gives them. Hidden
//! names are skipped unless the run asks for them, children below the depth
//! limit are never visited, and when an include pattern is set a
//! non-directory is surfaced only when its name matches while a directory is
//! surfaced only when its subtree holds a surfaced entry. The last-sibling
//! flag of every entry is computed against its visible siblings, before
//! pattern pruning, as the reference output format has it.

use vstd::prelude::*;
use crate::tree::{Config, EntryKind, Item, Node, SpecItem, item_views, spec_visible, visible};
use crate::pattern::{glob_match, glob_matches};

verus! {

/// Whether the walk surfaces `n`, sitting at `level`, once it is reached:
/// with no pattern every entry is surfaced; under a pattern a non-directory
/// must match by name, and a directory must be open to descent and hold a
/// surfaced visible child.
pub open spec fn spec_surfaced(n: Node, cfg: Config, level: nat) -> bool
    decreases n, 0nat,
{
    match cfg.include_pattern {
        Option::None => true,
        Option::Some(p) => {
            if n.kind is Directory {
                &&& level < cfg.max_level
                &&& exists|i: int|
                    0 <= i < n.children@.len() && spec_shown(#[trigger] n.children@[i], cfg, level + 1)
            } else {
                glob_matches(p@, n.name@)
            }
        },
    }
}

/// Whether `n` at `level` appears in the output: it must be visible under the
/// hidden-name rule and surfaced under the pattern rule.
pub open spec fn spec_shown(n: Node, cfg: Config, level: nat) -> bool
    decreases n, 1nat,
{
    spec_visible(n, cfg) && spec_surfaced(n, cfg, level)
}

/// Whether any of the children `cs` from index `i` on is visible: decides
/// the last-sibling flag of the child before them. The flag is computed
/// against the visible siblings, before pattern pruning: an entry that keeps
/// later visible siblings keeps its branch connector even when pruning drops
/// all of them, which is what the reference output format shows.
pub open spec fn spec_any_visible_from(cs: Seq<Node>, i: int, cfg: Config) -> bool {
    exists|j: int| i <= j < cs.len() && spec_visible(#[trigger] cs[j], cfg)
}

/// The emitted record of `n` at `level` with the given last-sibling flag.
pub open spec fn spec_item(n: Node, level: nat, is_last: bool) -> SpecItem {
    SpecItem {
        name: n.name@,
        kind: n.kind,
        mode: n.mode,
        link_target: match n.link_target {
            Option::Some(t) => Option::Some(t@),
            Option::None => Option::None,
        },
        target_is_dir: n.target_is_dir,
        level,
        is_last,
    }
}

/// The records of all shown children of `cs` from index `i` on, each followed
/// by its own subtree, in order.
pub open spec fn spec_items_from(cs: Seq<Node>, i: int, cfg: Config, level: nat) -> Seq<SpecItem>
    decreases cs, cs.len() - i,
{
    if i < 0 || i >= cs.len() {
        Seq::empty()
    } else {
        let rest = spec_items_from(cs, i + 1, cfg, level);
        if spec_shown(cs[i], cfg, level) {
            seq![spec_item(cs[i], level, !spec_any_visible_from(cs, i + 1, cfg))]
                + spec_descend(cs[i], cfg, level) + rest
        } else {
            rest
        }
    }
}

/// The records below `n` itself: a directory above the depth limit lists its
/// children one level further down, anything else contributes nothing.
pub open spec fn spec_descend(n: Node, cfg: Config, level: nat) -> Seq<SpecItem>
    decreases n, 0nat,
{
    if n.kind is Directory && level < cfg.max_level {
        spec_items_from(n.children@, 0, cfg, level + 1)
    } else {
        Seq::empty()
    }
}

/// The whole output of a walk: the root's own record (always shown, always a
/// last sibling) followed by its subtree.
pub open spec fn spec_items(root: Node, cfg: Config) -> Seq<SpecItem> {
    seq![spec_item(root, 0, true)] + spec_descend(root, cfg, 0)
}

/// Whether the walk surfaces `n` at `level` (the pattern rule alone).
pub fn surfaced(n: &Node, level: usize, cfg: &Config) -> (r: bool)
    ensures
        r == spec_surfaced(*n, *cfg, level as nat),
    decreases *n, 0nat,
{
    match &cfg.include_pattern {
        Option::None => true,
        Option::Some(p) => {
            if matches!(n.kind, EntryKind::Directory) {
                if level >= cfg.max_level {
                    return false;
                }
                let mut i: usize = 0;
                while i < n.children.len()
                    invariant
                        i <= n.children@.len(),
                        cfg.include_pattern is Some,
                        n.kind is Directory,
                        forall|j: int|
                            0 <= j < i ==> !spec_shown(#[trigger] n.children@[j], *cfg, level as nat + 1),
                        level < cfg.max_level,
                    decreases n.children@.len() - i,
                {
                    if shown(&n.children[i], level + 1, cfg) {
                        return true;
                    }
                    i = i + 1;
                }
                false
            } else {
                glob_match(p.as_str(), n.name.as_str())
            }
        },
    }
}

/// Whether the walk shows `n` at `level` (visibility and pattern together).
pub fn shown(n: &Node, level: usize, cfg: &Config) -> (r: bool)
    ensures
        r == spec_shown(*n, *cfg, level as nat),
    decreases *n, 1nat,
{
    visible(n, cfg) && surfaced(n, level, cfg)
}

/// The emitted record of `n`.
fn make_item(n: &Node, level: usize, is_last: bool) -> (r: Item)
    ensures
        r@ == spec_item(*n, level as nat, is_last),
{
    Item {
        name: n.name.clone(),
        kind: n.kind,
        mode: n.mode,
        link_target: match &n.link_target {
            Option::Some(t) => Option::Some(t.clone()),
            Option::None => Option::None,
        },
        target_is_dir: n.target_is_dir,
        level,
        is_last,
    }
}

/// Appends to `out` the records of the shown children of `cs` from index `i`
/// on, each followed by its subtree.
fn walk_from(cs: &Vec<Node>, i: usize, level: usize, cfg: &Config, out: &mut Vec<Item>)
    requires
        i <= cs@.len(),
    ensures
        item_views(final(out)@) == item_views(old(out)@) + spec_items_from(
            cs@,
            i as int,
            *cfg,
            level as nat,
        ),
    decreases cs@, cs@.len() - i,
{
    if i == cs.len() {
        proof {
            assert(item_views(out@) =~= item_views(out@) + spec_items_from(
                cs@,
                i as int,
                *cfg,
                level as nat,
            ));
        }
        return ;
    }
    let ghost mid0 = out@;
    if shown(&cs[i], level, cfg) {
        let last = !any_visible_from(cs, i + 1, cfg);
        out.push(make_item(&cs[i], level, last));
        proof {
            assert(item_views(out@) =~= item_views(mid0) + seq![
                spec_item(cs@[i as int], level as nat, last),
            ]);
        }
        let ghost mid1 = out@;
        if matches!(cs[i].kind, EntryKind::Directory) && level < cfg.max_level {
            walk_from(&cs[i].children, 0, level + 1, cfg, out);
        }
        proof {
            assert(item_views(out@) =~= item_views(mid1) + spec_descend(
                cs@[i as int],
                *cfg,
                level as nat,
            ));
        }
    }
    walk_from(cs, i + 1, level, cfg, out);
    proof {
        assert(item_views(out@) =~= item_views(mid0) + spec_items_from(
            cs@,
            i as int,
            *cfg,
            level as nat,
        ));
    }
}

/// Whether any child of `cs` from index `i` on is visible.
fn any_visible_from(cs: &Vec<Node>, i: usize, cfg: &Config) -> (r: bool)
    requires
        i <= cs@.len(),
    ensures
        r == spec_any_visible_from(cs@, i as int, *cfg),
{
    let mut j: usize = i;
    while j < cs.len()
        invariant
            i <= j <= cs@.len(),
            forall|k: int| i <= k < j ==> !spec_visible(#[trigger] cs@[k], *cfg),
        decreases cs@.len() - j,
    {
        if visible(&cs[j], cfg) {
            return true;
        }
        j = j + 1;
    }
    false
}

/// Walks the whole tree: the root's record first, then every shown
/// descendant in depth-first pre-order with its level and last-sibling flag.
pub fn walk(root: &Node, cfg: &Config) -> (items: Vec<Item>)
    ensures
        item_views(items@) == spec_items(*root, *cfg),
{
    let mut out: Vec<Item> = Vec::new();
    out.push(make_item(root, 0, true));
    proof {
        assert(item_views(out@) =~= seq![spec_item(*root, 0, true)]);
    }
    if matches!(root.kind, EntryKind::Directory) && 0 < cfg.max_level {
        walk_from(&root.children, 0, 1, cfg, &mut out);
    }
    proof {
        assert(item_views(out@) =~= spec_items(*root, *cfg));
    }
    out
}

} // verus!

//! The properties that hold of every run, proved against the walk and
//! rendering specifications.

use vstd::prelude::*;
use crate::tree::{Config, Node, SpecItem, spec_visible};
use crate::pattern::glob_matches;
use crate::walker::{
    spec_any_visible_from, spec_descend, spec_item, spec_items, spec_items_from, spec_shown,
    spec_surfaced,
};
use crate::prefix::{lemma_prefix_len, spec_prefix, spec_truncate, spec_update_levels};
use crate::printer::{
    run_stack, spec_count_dirs, spec_count_files, spec_folders, spec_lines, spec_output,
};

verus! {

// ---------------------------------------------------------------------------
// Depth bound
// ---------------------------------------------------------------------------

/// No record below `cs[i..]` at `level` sits above the depth limit, and none
/// sits above `level` itself.
pub proof fn lemma_depth_bound_from(cs: Seq<Node>, i: int, cfg: Config, level: nat)
    requires
        level <= cfg.max_level,
    ensures
        forall|k: int|
            0 <= k < spec_items_from(cs, i, cfg, level).len() ==> level <= (
            #[trigger] spec_items_from(cs, i, cfg, level)[k]).level <= cfg.max_level,
    decreases cs, cs.len() - i,
{
    if 0 <= i < cs.len() {
        lemma_depth_bound_from(cs, i + 1, cfg, level);
        if spec_shown(cs[i], cfg, level) {
            lemma_depth_bound_descend(cs[i], cfg, level);
            let a = seq![spec_item(cs[i], level, !spec_any_visible_from(cs, i + 1, cfg))];
            let b = spec_descend(cs[i], cfg, level);
            let c = spec_items_from(cs, i + 1, cfg, level);
            let s = spec_items_from(cs, i, cfg, level);
            assert(s == a + b + c);
            assert forall|k: int| 0 <= k < s.len() implies level <= (#[trigger] s[k]).level
                <= cfg.max_level by {
                if k == 0 {
                    assert(s[k] == a[0]);
                } else if k < 1 + b.len() {
                    assert(s[k] == b[k - 1]);
                } else {
                    assert(s[k] == c[k - 1 - b.len()]);
                }
            }
        }
    }
}

/// Below a directory at `level`, every record sits strictly deeper than
/// `level` and never above the depth limit.
pub proof fn lemma_depth_bound_descend(n: Node, cfg: Config, level: nat)
    requires
        level <= cfg.max_level,
    ensures
        forall|k: int|
            0 <= k < spec_descend(n, cfg, level).len() ==> level < (
            #[trigger] spec_descend(n, cfg, level)[k]).level <= cfg.max_level,
    decreases n, 0nat,
{
    if n.kind is Directory && level < cfg.max_level {
        lemma_depth_bound_from(n.children@, 0, cfg, level + 1);
    }
}

/// Depth bound: no emitted record sits above the depth limit, and at the
/// limit a directory's children are not visited at all — not even to look
/// for pattern matches, so under a pattern such a directory is never
/// surfaced.
pub proof fn lemma_depth_bound(root: Node, cfg: Config)
    ensures
        forall|k: int|
            0 <= k < spec_items(root, cfg).len() ==> (#[trigger] spec_items(root, cfg)[k]).level
                <= cfg.max_level,
        forall|n: Node, level: nat|
            level >= cfg.max_level ==> #[trigger] spec_descend(n, cfg, level) == Seq::<
                SpecItem,
            >::empty(),
        forall|n: Node, level: nat|
            n.kind is Directory && level >= cfg.max_level && cfg.include_pattern is Some
                ==> !#[trigger] spec_surfaced(n, cfg, level),
{
    lemma_depth_bound_descend(root, cfg, 0);
    let s = spec_items(root, cfg);
    let a = seq![spec_item(root, 0, true)];
    let b = spec_descend(root, cfg, 0);
    assert forall|k: int| 0 <= k < s.len() implies (#[trigger] s[k]).level <= cfg.max_level by {
        if k == 0 {
            assert(s[k] == a[0]);
        } else {
            assert(s[k] == b[k - 1]);
        }
    }
}

// ---------------------------------------------------------------------------
// Totals
// ---------------------------------------------------------------------------

/// Every record is counted exactly once: as a directory or as a file.
pub proof fn lemma_counts_partition(items: Seq<SpecItem>)
    ensures
        spec_count_dirs(items) + spec_count_files(items) == items.len(),
    decreases items.len(),
{
    if items.len() > 0 {
        lemma_counts_partition(items.drop_last());
    }
}

/// A sequence whose first record is a directory counts at least one
/// directory.
pub proof fn lemma_count_dirs_pos(items: Seq<SpecItem>)
    requires
        items.len() > 0,
        items[0].kind is Directory,
    ensures
        spec_count_dirs(items) >= 1,
    decreases items.len(),
{
    if items.len() > 1 {
        lemma_count_dirs_pos(items.drop_last());
    }
}

/// Line-and-total accounting: when the root is a directory, the directory
/// total (root excluded) and the file total together equal the number of
/// emitted lines minus the root's own line.
pub proof fn lemma_totals(root: Node, cfg: Config)
    requires
        root.kind is Directory,
    ensures
        spec_folders(spec_items(root, cfg)) + spec_count_files(spec_items(root, cfg)) + 1
            == spec_lines(spec_items(root, cfg)).len(),
{
    let items = spec_items(root, cfg);
    lemma_counts_partition(items);
    assert(items[0] == spec_item(root, 0, true));
    lemma_count_dirs_pos(items);
}

// ---------------------------------------------------------------------------
// Idempotence
// ---------------------------------------------------------------------------

/// Two runs against an unchanged tree and unchanged settings give
/// byte-identical output: the rendered text is a function of the tree and
/// the settings alone.
pub proof fn lemma_idempotent(root: Node, cfg: Config, first: Seq<char>, second: Seq<char>)
    requires
        first == spec_output(root, cfg),
        second == spec_output(root, cfg),
    ensures
        first == second,
{
}

// ---------------------------------------------------------------------------
// Pruning
// ---------------------------------------------------------------------------

/// Whether a directory at `level` holds, through visible entries and within
/// the depth limit, some non-directory entry whose name matches `p`.
pub open spec fn spec_subtree_match(n: Node, p: Seq<char>, cfg: Config, level: nat) -> bool
    decreases n, 0nat,
{
    &&& level < cfg.max_level
    &&& exists|i: int|
        0 <= i < n.children@.len() && spec_visible(#[trigger] n.children@[i], cfg)
            && spec_entry_match(n.children@[i], p, cfg, level + 1)
}

/// Whether an entry at `level` matches `p` itself (a non-directory) or holds
/// a match below it (a directory).
pub open spec fn spec_entry_match(n: Node, p: Seq<char>, cfg: Config, level: nat) -> bool
    decreases n, 1nat,
{
    if n.kind is Directory {
        spec_subtree_match(n, p, cfg, level)
    } else {
        glob_matches(p, n.name@)
    }
}

/// Pruning: under a pattern, a non-directory is surfaced exactly when its
/// name matches, and a directory is surfaced exactly when some file in its
/// subtree — reachable through visible entries within the depth limit —
/// matches.
pub proof fn lemma_pruning(n: Node, p: Seq<char>, cfg: Config, level: nat)
    requires
        match cfg.include_pattern {
            Option::Some(q) => q@ == p,
            Option::None => false,
        },
    ensures
        n.kind is Directory ==> (spec_surfaced(n, cfg, level) <==> spec_subtree_match(
            n,
            p,
            cfg,
            level,
        )),
        !(n.kind is Directory) ==> (spec_surfaced(n, cfg, level) <==> glob_matches(p, n.name@)),
    decreases n,
{
    if n.kind is Directory {
        assert forall|i: int| 0 <= i < n.children@.len() implies (spec_shown(
            #[trigger] n.children@[i],
            cfg,
            level + 1,
        ) <==> spec_visible(n.children@[i], cfg) && spec_entry_match(
            n.children@[i],
            p,
            cfg,
            level + 1,
        )) by {
            lemma_pruning(n.children@[i], p, cfg, level + 1);
        }
    }
}

// ---------------------------------------------------------------------------
// Sibling order
// ---------------------------------------------------------------------------

/// Lexicographic order on names, by character code.
pub open spec fn name_le(a: Seq<char>, b: Seq<char>) -> bool
    decreases a.len(),
{
    if a.len() == 0 {
        true
    } else if b.len() == 0 {
        false
    } else if a[0] != b[0] {
        (a[0] as int) < (b[0] as int)
    } else {
        name_le(a.drop_first(), b.drop_first())
    }
}

/// Whether a child list is in ascending name order.
pub open spec fn sorted_names(cs: Seq<Node>) -> bool {
    forall|i: int, j: int|
        0 <= i < j < cs.len() ==> name_le((#[trigger] cs[i]).name@, (#[trigger] cs[j]).name@)
}

/// Each record at a segment's own level — a direct sibling — carries the
/// name of one of the children of the list the segment was made from.
#[verifier::rlimit(100)]
#[verifier::spinoff_prover]
pub proof fn lemma_sibling_witness(cs: Seq<Node>, i: int, cfg: Config, level: nat)
    ensures
        forall|k: int|
            0 <= k < spec_items_from(cs, i, cfg, level).len() && (#[trigger] spec_items_from(
                cs,
                i,
                cfg,
                level,
            )[k]).level == level ==> exists|j: int|
                i <= j < cs.len() && spec_items_from(cs, i, cfg, level)[k].name == cs[j].name@,
    decreases cs, cs.len() - i,
{
    if 0 <= i < cs.len() {
        lemma_sibling_witness(cs, i + 1, cfg, level);
        let s = spec_items_from(cs, i, cfg, level);
        let c = spec_items_from(cs, i + 1, cfg, level);
        if spec_shown(cs[i], cfg, level) {
            lemma_seg_descend(cs[i], cfg, level);
            let first = spec_item(cs[i], level, !spec_any_visible_from(cs, i + 1, cfg));
            let b = spec_descend(cs[i], cfg, level);
            assert(s == seq![first] + b + c);
            assert forall|k: int|
                0 <= k < s.len() && (#[trigger] s[k]).level == level implies exists|j: int|
                i <= j < cs.len() && s[k].name == cs[j].name@ by {
                if k == 0 {
                    assert(s[k] == first);
                    assert(s[k].name == cs[i].name@);
                } else if k < 1 + b.len() {
                    assert(s[k] == b[k - 1]);
                    assert(b[k - 1].level >= level + 1);
                } else {
                    assert(s[k] == c[k - 1 - b.len()]);
                    let j = choose|j: int|
                        i + 1 <= j < cs.len() && c[k - 1 - b.len()].name == cs[j].name@;
                    assert(i <= j < cs.len() && s[k].name == cs[j].name@);
                }
            }
        } else {
            assert(s == c);
            assert forall|k: int|
                0 <= k < s.len() && (#[trigger] s[k]).level == level implies exists|j: int|
                i <= j < cs.len() && s[k].name == cs[j].name@ by {
                assert(s[k] == c[k]);
                let j = choose|j: int| i + 1 <= j < cs.len() && c[k].name == cs[j].name@;
                assert(i <= j < cs.len() && s[k].name == cs[j].name@);
            }
        }
    }
}

/// Siblings keep their name order: in the record segment of one sorted child
/// list, the records at the segment's own level — the direct siblings, each
/// standing right before its own subtree — carry ascending names.
#[verifier::rlimit(100)]
#[verifier::spinoff_prover]
pub proof fn lemma_siblings_name_ordered(cs: Seq<Node>, i: int, cfg: Config, level: nat)
    requires
        sorted_names(cs),
    ensures
        forall|k1: int, k2: int|
            0 <= k1 < k2 < spec_items_from(cs, i, cfg, level).len() && (
            #[trigger] spec_items_from(cs, i, cfg, level)[k1]).level == level && (
            #[trigger] spec_items_from(cs, i, cfg, level)[k2]).level == level ==> name_le(
                spec_items_from(cs, i, cfg, level)[k1].name,
                spec_items_from(cs, i, cfg, level)[k2].name,
            ),
    decreases cs, cs.len() - i,
{
    if 0 <= i < cs.len() {
        lemma_siblings_name_ordered(cs, i + 1, cfg, level);
        lemma_sibling_witness(cs, i + 1, cfg, level);
        let s = spec_items_from(cs, i, cfg, level);
        let c = spec_items_from(cs, i + 1, cfg, level);
        if spec_shown(cs[i], cfg, level) {
            lemma_seg_descend(cs[i], cfg, level);
            let first = spec_item(cs[i], level, !spec_any_visible_from(cs, i + 1, cfg));
            let b = spec_descend(cs[i], cfg, level);
            assert(s == seq![first] + b + c);
            assert forall|k1: int, k2: int|
                0 <= k1 < k2 < s.len() && (#[trigger] s[k1]).level == level && (
                #[trigger] s[k2]).level == level implies name_le(s[k1].name, s[k2].name) by {
                if k1 >= 1 && k1 < 1 + b.len() {
                    assert(s[k1] == b[k1 - 1]);
                    assert(b[k1 - 1].level >= level + 1);
                } else if k2 < 1 + b.len() {
                    assert(k1 == 0 && k2 >= 1);
                    assert(s[k2] == b[k2 - 1]);
                    assert(b[k2 - 1].level >= level + 1);
                } else if k1 == 0 {
                    assert(s[k1] == first);
                    assert(s[k2] == c[k2 - 1 - b.len()]);
                    let j = choose|j: int|
                        i + 1 <= j < cs.len() && c[k2 - 1 - b.len()].name == cs[j].name@;
                    assert(name_le(cs[i].name@, cs[j].name@));
                } else {
                    assert(s[k1] == c[k1 - 1 - b.len()]);
                    assert(s[k2] == c[k2 - 1 - b.len()]);
                }
            }
        } else {
            assert(s == c);
        }
    }
}

/// When the root's children arrive sorted by name, the walk lists the
/// entries directly below the root in ascending name order.
pub proof fn lemma_walk_siblings_name_ordered(root: Node, cfg: Config)
    requires
        sorted_names(root.children@),
    ensures
        forall|k1: int, k2: int|
            0 <= k1 < k2 < spec_items(root, cfg).len() && (
            #[trigger] spec_items(root, cfg)[k1]).level == 1 && (
            #[trigger] spec_items(root, cfg)[k2]).level == 1 ==> name_le(
                spec_items(root, cfg)[k1].name,
                spec_items(root, cfg)[k2].name,
            ),
{
    let items = spec_items(root, cfg);
    let a = seq![spec_item(root, 0, true)];
    let b = spec_descend(root, cfg, 0);
    assert(items == a + b);
    if root.kind is Directory && 0 < cfg.max_level {
        lemma_siblings_name_ordered(root.children@, 0, cfg, 1);
    }
    assert forall|k1: int, k2: int|
        0 <= k1 < k2 < items.len() && (#[trigger] items[k1]).level == 1 && (
        #[trigger] items[k2]).level == 1 implies name_le(items[k1].name, items[k2].name) by {
        assert(items[0] == a[0]);
        assert(k1 >= 1);
        assert(items[k1] == b[k1 - 1]);
        assert(items[k2] == b[k2 - 1]);
    }
}

/// A shown entry is emitted: the walk of its sibling list carries its
/// record, at its level, with its last-sibling flag.
pub proof fn lemma_shown_child_emitted(cs: Seq<Node>, j: int, i: int, cfg: Config, level: nat)
    requires
        0 <= j <= i < cs.len(),
        spec_shown(cs[i], cfg, level),
    ensures
        exists|k: int|
            0 <= k < spec_items_from(cs, j, cfg, level).len() && spec_items_from(
                cs,
                j,
                cfg,
                level,
            )[k] == spec_item(cs[i], level, !spec_any_visible_from(cs, i + 1, cfg)),
    decreases i - j,
{
    let target = spec_item(cs[i], level, !spec_any_visible_from(cs, i + 1, cfg));
    if j == i {
        let s = spec_items_from(cs, j, cfg, level);
        assert(s[0] == target);
    } else {
        lemma_shown_child_emitted(cs, j + 1, i, cfg, level);
        let rest = spec_items_from(cs, j + 1, cfg, level);
        let s = spec_items_from(cs, j, cfg, level);
        let k0 = choose|k: int| 0 <= k < rest.len() && rest[k] == target;
        if spec_shown(cs[j], cfg, level) {
            let b = spec_descend(cs[j], cfg, level);
            assert(s == seq![spec_item(cs[j], level, !spec_any_visible_from(cs, j + 1, cfg))] + b
                + rest);
            assert(s[1 + b.len() + k0] == target);
        } else {
            assert(s[k0] == target);
        }
    }
}

// ---------------------------------------------------------------------------
// Indentation
// ---------------------------------------------------------------------------

/// The shape of a depth-first record sequence rooted at `level`: nothing
/// sits above `level`, the first record sits exactly at `level`, and the
/// level never jumps by more than one from one record to the next.
pub open spec fn seg_ok(s: Seq<SpecItem>, level: nat) -> bool {
    &&& forall|k: int| 0 <= k < s.len() ==> (#[trigger] s[k]).level >= level
    &&& (s.len() > 0 ==> s[0].level == level)
    &&& forall|k: int| 1 <= k < s.len() ==> (#[trigger] s[k]).level <= s[k - 1].level + 1
}

/// Putting one record at `level` before its subtree (which sits one level
/// further down) and the records of the later siblings keeps the depth-first
/// shape.
#[verifier::rlimit(50)]
proof fn lemma_seg_concat(first: SpecItem, b: Seq<SpecItem>, c: Seq<SpecItem>, level: nat)
    requires
        first.level == level,
        seg_ok(b, level + 1),
        seg_ok(c, level),
    ensures
        seg_ok(seq![first] + b + c, level),
{
    let a = seq![first];
    let s = a + b + c;
    assert forall|k: int| 0 <= k < s.len() implies (#[trigger] s[k]).level >= level by {
        if k == 0 {
            assert(s[k] == a[0]);
        } else if k < 1 + b.len() {
            assert(s[k] == b[k - 1]);
        } else {
            assert(s[k] == c[k - 1 - b.len()]);
        }
    }
    assert(s[0] == a[0]);
    assert forall|k: int| 1 <= k < s.len() implies (#[trigger] s[k]).level <= s[k - 1].level
        + 1 by {
        if k < 1 + b.len() {
            assert(s[k] == b[k - 1]);
            if k == 1 {
                assert(s[0] == a[0]);
            } else {
                assert(s[k - 1] == b[k - 2]);
            }
        } else if k == 1 + b.len() {
            assert(s[k] == c[0]);
            if b.len() == 0 {
                assert(s[0] == a[0]);
            } else {
                assert(s[k - 1] == b[k - 2]);
            }
        } else {
            assert(s[k] == c[k - 1 - b.len()]);
            assert(s[k - 1] == c[k - 2 - b.len()]);
        }
    }
}

/// The records of `cs[i..]` at `level` have the depth-first shape.
#[verifier::rlimit(100)]
pub proof fn lemma_seg_from(cs: Seq<Node>, i: int, cfg: Config, level: nat)
    ensures
        seg_ok(spec_items_from(cs, i, cfg, level), level),
    decreases cs, cs.len() - i,
{
    if 0 <= i < cs.len() {
        lemma_seg_from(cs, i + 1, cfg, level);
        if spec_shown(cs[i], cfg, level) {
            lemma_seg_descend(cs[i], cfg, level);
            let first = spec_item(cs[i], level, !spec_any_visible_from(cs, i + 1, cfg));
            let b = spec_descend(cs[i], cfg, level);
            let c = spec_items_from(cs, i + 1, cfg, level);
            assert(spec_items_from(cs, i, cfg, level) == seq![first] + b + c);
            lemma_seg_concat(first, b, c, level);
        }
    }
}

/// The records below one directory have the depth-first shape, one level
/// further down.
pub proof fn lemma_seg_descend(n: Node, cfg: Config, level: nat)
    ensures
        seg_ok(spec_descend(n, cfg, level), level + 1),
    decreases n, 0nat,
{
    if n.kind is Directory && level < cfg.max_level {
        lemma_seg_from(n.children@, 0, cfg, level + 1);
    }
}

/// A whole walk has the depth-first shape: the root record sits at level
/// zero and the level never jumps by more than one.
pub proof fn lemma_walk_preorder(root: Node, cfg: Config)
    ensures
        spec_items(root, cfg).len() > 0,
        spec_items(root, cfg)[0].level == 0,
        forall|k: int|
            1 <= k < spec_items(root, cfg).len() ==> 1 <= (
            #[trigger] spec_items(root, cfg)[k]).level <= spec_items(root, cfg)[k - 1].level + 1,
{
    lemma_seg_descend(root, cfg, 0);
    let a = seq![spec_item(root, 0, true)];
    let b = spec_descend(root, cfg, 0);
    let s = spec_items(root, cfg);
    assert(s == a + b);
    assert(s[0] == a[0]);
    assert forall|k: int| 1 <= k < s.len() implies 1 <= (#[trigger] s[k]).level <= s[k - 1].level
        + 1 by {
        assert(s[k] == b[k - 1]);
        if k == 1 {
            assert(s[0] == a[0]);
        } else {
            assert(s[k - 1] == b[k - 2]);
        }
    }
}

/// Along a depth-first record sequence the level stack always holds exactly
/// one slot per level of the record just taken up.
pub proof fn lemma_run_stack_len(items: Seq<SpecItem>, k: int)
    requires
        items.len() > 0,
        items[0].level == 0,
        forall|j: int|
            1 <= j < items.len() ==> 1 <= (#[trigger] items[j]).level <= items[j - 1].level + 1,
        1 <= k <= items.len(),
    ensures
        run_stack(items, k).len() == items[k - 1].level,
    decreases k,
{
    if k == 1 {
        assert(spec_truncate(Seq::<bool>::empty(), items[0].level) =~= Seq::<bool>::empty());
    } else {
        lemma_run_stack_len(items, k - 1);
        let prev = run_stack(items, k - 1);
        let l = items[k - 1].level;
        assert(run_stack(items, k) == spec_update_levels(prev, l, items[k - 1].is_last));
        if prev.len() >= l {
            assert(spec_truncate(prev, l).len() == l);
        } else {
            assert(l == prev.len() + 1);
            assert(spec_truncate(prev, l) == prev);
        }
    }
}

/// The prefixes of a run, produced as the driver produces them: the level
/// stack is folded along the entry sequence and each entry's prefix is read
/// off the stack right after its own update.
pub open spec fn run_prefixes(items: Seq<SpecItem>, s: Seq<bool>) -> Seq<Seq<char>>
    decreases items.len(),
{
    if items.len() == 0 {
        Seq::empty()
    } else {
        let s1 = spec_update_levels(s, items[0].level, items[0].is_last);
        seq![spec_prefix(s1)] + run_prefixes(items.drop_first(), s1)
    }
}

/// The level stack once the whole entry sequence has been folded in.
pub open spec fn run_final(items: Seq<SpecItem>, s: Seq<bool>) -> Seq<bool>
    decreases items.len(),
{
    if items.len() == 0 {
        s
    } else {
        run_final(items.drop_first(), spec_update_levels(s, items[0].level, items[0].is_last))
    }
}

/// Folding a concatenation folds the first part and goes on from its final
/// stack.
proof fn lemma_run_append(a: Seq<SpecItem>, b: Seq<SpecItem>, s: Seq<bool>)
    ensures
        run_prefixes(a + b, s) == run_prefixes(a, s) + run_prefixes(b, run_final(a, s)),
        run_final(a + b, s) == run_final(b, run_final(a, s)),
    decreases a.len(),
{
    if a.len() == 0 {
        assert(a + b =~= b);
        assert(run_prefixes(a, s) + run_prefixes(b, s) =~= run_prefixes(b, s));
    } else {
        let s1 = spec_update_levels(s, a[0].level, a[0].is_last);
        assert((a + b).drop_first() =~= a.drop_first() + b);
        lemma_run_append(a.drop_first(), b, s1);
        assert(run_prefixes(a + b, s) =~= run_prefixes(a, s) + run_prefixes(
            b,
            run_final(a, s),
        ));
    }
}

/// The prefixes of the shown children of `cs[i..]` at `level`, written from
/// the ancestor chain alone: `anc` holds one flag per ancestor level — true
/// where that ancestor still has later visible siblings — and every line's
/// prefix is the bars of its own chain plus its connector.
pub open spec fn tree_prefixes_from(
    cs: Seq<Node>,
    i: int,
    cfg: Config,
    level: nat,
    anc: Seq<bool>,
) -> Seq<Seq<char>>
    decreases cs, cs.len() - i,
{
    if i < 0 || i >= cs.len() {
        Seq::empty()
    } else {
        let rest = tree_prefixes_from(cs, i + 1, cfg, level, anc);
        if spec_shown(cs[i], cfg, level) {
            let chain = anc.push(spec_any_visible_from(cs, i + 1, cfg));
            seq![spec_prefix(chain)] + tree_prefixes_descend(cs[i], cfg, level, chain) + rest
        } else {
            rest
        }
    }
}

/// The prefixes below one directory, its own chain extended by one flag.
pub open spec fn tree_prefixes_descend(
    n: Node,
    cfg: Config,
    level: nat,
    chain: Seq<bool>,
) -> Seq<Seq<char>>
    decreases n, 0nat,
{
    if n.kind is Directory && level < cfg.max_level {
        tree_prefixes_from(n.children@, 0, cfg, level + 1, chain)
    } else {
        Seq::empty()
    }
}

/// One stack update during a subtree: a stack that agrees with the ancestor
/// chain below the entry's level is brought to exactly the chain of the
/// entry itself.
proof fn lemma_update_to_chain(s: Seq<bool>, anc: Seq<bool>, level: nat, is_last: bool)
    requires
        level >= 1,
        anc.len() == level - 1,
        s.len() >= level - 1,
        s.take(level - 1) == anc,
    ensures
        spec_update_levels(s, level, is_last) == anc.push(!is_last),
{
    let t = spec_truncate(s, level);
    if s.len() >= level {
        assert(t =~= s.take(level as int));
        assert(t.drop_last() =~= s.take(level - 1));
        assert(t.drop_last().push(!is_last) =~= anc.push(!is_last));
    } else {
        assert(t == s);
        assert(s =~= s.take(level - 1));
        assert(t.push(!is_last) =~= anc.push(!is_last));
    }
}

/// Running the level stack along the records of `cs[i..]` at `level` yields
/// exactly the ancestor-chain prefixes, and leaves a stack that still agrees
/// with the chain below `level`.
pub proof fn lemma_stack_follows_tree_from(
    cs: Seq<Node>,
    i: int,
    cfg: Config,
    level: nat,
    anc: Seq<bool>,
    s: Seq<bool>,
)
    requires
        level >= 1,
        anc.len() == level - 1,
        s.len() >= level - 1,
        s.take(level - 1) == anc,
    ensures
        run_prefixes(spec_items_from(cs, i, cfg, level), s) == tree_prefixes_from(
            cs,
            i,
            cfg,
            level,
            anc,
        ),
        run_final(spec_items_from(cs, i, cfg, level), s).len() >= level - 1,
        run_final(spec_items_from(cs, i, cfg, level), s).take(level - 1) == anc,
    decreases cs, cs.len() - i,
{
    if i < 0 || i >= cs.len() {
    } else if spec_shown(cs[i], cfg, level) {
        let il = !spec_any_visible_from(cs, i + 1, cfg);
        let it = spec_item(cs[i], level, il);
        let chain = anc.push(!il);
        let b = spec_descend(cs[i], cfg, level);
        let c = spec_items_from(cs, i + 1, cfg, level);
        assert(spec_items_from(cs, i, cfg, level) == seq![it] + b + c);
        lemma_update_to_chain(s, anc, level, il);
        let s1 = spec_update_levels(s, level, il);
        assert(s1 == chain);
        let one = seq![it];
        assert(one[0] == it && it.level == level && it.is_last == il);
        assert(one.drop_first() =~= Seq::<SpecItem>::empty());
        assert(run_prefixes(one.drop_first(), s1) == Seq::<Seq<char>>::empty());
        assert(run_prefixes(one, s) =~= seq![spec_prefix(chain)]);
        assert(run_final(one, s) == run_final(one.drop_first(), s1));
        assert(run_final(one, s) == chain);
        if cs[i].kind is Directory && level < cfg.max_level {
            assert(chain.take(level as int) =~= chain);
            lemma_stack_follows_tree_from(cs[i].children@, 0, cfg, level + 1, chain, chain);
        }
        let f1 = run_final(b, chain);
        assert(run_prefixes(b, chain) == tree_prefixes_descend(cs[i], cfg, level, chain));
        assert(f1.len() >= level - 1 && f1.take(level - 1) == anc) by {
            if cs[i].kind is Directory && level < cfg.max_level {
                assert(f1.take(level as int).take(level - 1) =~= f1.take(level - 1));
                assert(chain.take(level - 1) =~= anc);
            } else {
                assert(f1 == chain);
                assert(chain.take(level - 1) =~= anc);
            }
        }
        lemma_stack_follows_tree_from(cs, i + 1, cfg, level, anc, f1);
        lemma_run_append(seq![it], b, s);
        lemma_run_append(seq![it] + b, c, s);
        assert(run_final(seq![it] + b, s) == f1);
        assert(run_prefixes(seq![it] + b + c, s) =~= seq![spec_prefix(chain)] + run_prefixes(
            b,
            chain,
        ) + run_prefixes(c, f1));
        assert(tree_prefixes_from(cs, i, cfg, level, anc) == seq![spec_prefix(chain)]
            + tree_prefixes_descend(cs[i], cfg, level, chain) + tree_prefixes_from(
            cs,
            i + 1,
            cfg,
            level,
            anc,
        ));
    } else {
        lemma_stack_follows_tree_from(cs, i + 1, cfg, level, anc, s);
    }
}

/// The indexed stack fold, started from an arbitrary stack.
pub open spec fn run_stack_from(items: Seq<SpecItem>, s: Seq<bool>, k: int) -> Seq<bool>
    decreases k,
{
    if k <= 0 {
        s
    } else {
        spec_update_levels(run_stack_from(items, s, k - 1), items[k - 1].level, items[k - 1].is_last)
    }
}

/// The driver's stack fold is the indexed fold from the empty stack.
proof fn lemma_run_stack_from_empty(items: Seq<SpecItem>, k: int)
    ensures
        run_stack(items, k) == run_stack_from(items, Seq::<bool>::empty(), k),
    decreases k,
{
    if k > 0 {
        lemma_run_stack_from_empty(items, k - 1);
    }
}

/// Shifting the indexed fold by one entry.
proof fn lemma_run_stack_shift(items: Seq<SpecItem>, s: Seq<bool>, k: int)
    requires
        0 <= k < items.len(),
    ensures
        run_stack_from(items, s, k + 1) == run_stack_from(
            items.drop_first(),
            spec_update_levels(s, items[0].level, items[0].is_last),
            k,
        ),
    decreases k,
{
    let s1 = spec_update_levels(s, items[0].level, items[0].is_last);
    if k == 0 {
        assert(run_stack_from(items, s, 0) == s);
        assert(run_stack_from(items, s, 1) == s1);
        assert(run_stack_from(items.drop_first(), s1, 0) == s1);
    } else {
        lemma_run_stack_shift(items, s, k - 1);
        assert(items.drop_first()[k - 1] == items[k]);
        assert(run_stack_from(items, s, k + 1) == spec_update_levels(
            run_stack_from(items, s, k),
            items[k].level,
            items[k].is_last,
        ));
        assert(run_stack_from(items.drop_first(), s1, k) == spec_update_levels(
            run_stack_from(items.drop_first(), s1, k - 1),
            items.drop_first()[k - 1].level,
            items.drop_first()[k - 1].is_last,
        ));
    }
}

/// The fold yields one prefix per entry.
proof fn lemma_run_prefixes_len(items: Seq<SpecItem>, s: Seq<bool>)
    ensures
        run_prefixes(items, s).len() == items.len(),
    decreases items.len(),
{
    if items.len() > 0 {
        lemma_run_prefixes_len(
            items.drop_first(),
            spec_update_levels(s, items[0].level, items[0].is_last),
        );
    }
}

/// The structural fold and the indexed fold read the same prefix at every
/// position.
proof fn lemma_run_prefix_index(items: Seq<SpecItem>, s: Seq<bool>, k: int)
    requires
        0 <= k < items.len(),
    ensures
        run_prefixes(items, s)[k] == spec_prefix(run_stack_from(items, s, k + 1)),
    decreases items.len(),
{
    let s1 = spec_update_levels(s, items[0].level, items[0].is_last);
    lemma_run_prefixes_len(items.drop_first(), s1);
    if k == 0 {
        assert(run_stack_from(items, s, 0) == s);
        assert(run_stack_from(items, s, 1) == s1);
    } else {
        lemma_run_prefix_index(items.drop_first(), s1, k - 1);
        lemma_run_stack_shift(items, s, k);
        assert(run_prefixes(items, s)[k] == run_prefixes(items.drop_first(), s1)[k - 1]);
    }
}

/// Connector correctness: every emitted line's prefix is exactly the prefix
/// written from its ancestor chain — a bar group where the ancestor at that
/// level still has later visible siblings, a blank group where it does not,
/// and the connector chosen by the entry's own last-sibling flag; the root
/// line has no prefix at all.
pub proof fn lemma_prefixes_follow_ancestry(root: Node, cfg: Config)
    ensures
        ({
            let items = spec_items(root, cfg);
            let chain_prefixes = seq![Seq::<char>::empty()] + tree_prefixes_descend(
                root,
                cfg,
                0,
                Seq::<bool>::empty(),
            );
            &&& spec_lines(items).len() == chain_prefixes.len()
            &&& forall|k: int|
                0 <= k < spec_lines(items).len() ==> (#[trigger] spec_lines(items)[k]).prefix
                    == chain_prefixes[k]
        }),
{
    let items = spec_items(root, cfg);
    let empty_stack = Seq::<bool>::empty();
    let it = spec_item(root, 0, true);
    let b = spec_descend(root, cfg, 0);
    assert(items == seq![it] + b);
    let s1 = spec_update_levels(empty_stack, 0, true);
    assert(spec_truncate(empty_stack, 0) == empty_stack);
    assert(s1 == empty_stack);
    let one = seq![it];
    assert(one[0] == it && it.level == 0 && it.is_last == true);
    assert(one.drop_first() =~= Seq::<SpecItem>::empty());
    assert(run_prefixes(one.drop_first(), s1) == Seq::<Seq<char>>::empty());
    assert(spec_prefix(empty_stack) == Seq::<char>::empty());
    assert(run_prefixes(one, empty_stack) =~= seq![Seq::<char>::empty()]);
    assert(run_final(one, empty_stack) == run_final(one.drop_first(), s1));
    assert(run_final(one, empty_stack) == empty_stack);
    if root.kind is Directory && 0 < cfg.max_level {
        assert(empty_stack.take(0) =~= empty_stack);
        lemma_stack_follows_tree_from(root.children@, 0, cfg, 1, empty_stack, empty_stack);
    }
    assert(run_prefixes(b, empty_stack) == tree_prefixes_descend(root, cfg, 0, empty_stack));
    lemma_run_append(one, b, empty_stack);
    let chain_prefixes = seq![Seq::<char>::empty()] + tree_prefixes_descend(
        root,
        cfg,
        0,
        empty_stack,
    );
    assert(run_prefixes(items, empty_stack) == chain_prefixes);
    lemma_run_prefixes_len(items, empty_stack);
    assert forall|k: int| 0 <= k < spec_lines(items).len() implies (
    #[trigger] spec_lines(items)[k]).prefix == chain_prefixes[k] by {
        lemma_run_prefix_index(items, empty_stack, k);
        lemma_run_stack_from_empty(items, k + 1);
    }
}

/// Indentation: every emitted line's prefix is four glyphs per level — four
/// times the entry's depth below the root's children, plus the four-glyph
/// connector.
pub proof fn lemma_indentation(root: Node, cfg: Config, k: int)
    requires
        0 <= k < spec_items(root, cfg).len(),
    ensures
        spec_lines(spec_items(root, cfg))[k].prefix.len() == 4 * spec_items(root, cfg)[k].level,
{
    let items = spec_items(root, cfg);
    lemma_walk_preorder(root, cfg);
    lemma_run_stack_len(items, k + 1);
    lemma_prefix_len(run_stack(items, k + 1));
}

} // verus!

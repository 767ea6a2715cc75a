//! The connector-glyph prefix of one line, driven by the level stack.
//!
//! The level stack holds one boolean per open ancestor level: `true` means
//! more siblings follow at that level after the current branch returns, so a
//! vertical bar must run down through it. [`update_levels`] keeps the stack in
//! lockstep with the entry being rendered, and [`set_line_prefix`] turns the
//! stack into the glyph prefix for the current line.

use vstd::prelude::*;
use vstd::string::StringExecFns;

verus! {

/// The stack truncated to at most `level` entries.
pub open spec fn spec_truncate(s: Seq<bool>, level: nat) -> Seq<bool> {
    if s.len() > level {
        s.take(level as int)
    } else {
        s
    }
}

/// The level stack after the entry at `level` with the given last-sibling
/// flag has been taken up: levels deeper than `level` are dropped, a slot is
/// opened when the entry is one level deeper than the stack, and the top slot
/// records whether more siblings follow.
pub open spec fn spec_update_levels(s: Seq<bool>, level: nat, is_last: bool) -> Seq<bool> {
    let t = spec_truncate(s, level);
    if level > t.len() {
        t.push(!is_last)
    } else if t.len() > 0 {
        t.drop_last().push(!is_last)
    } else {
        t
    }
}

/// Brings the level stack in lockstep with the entry at `level` whose
/// last-sibling flag is `is_last`.
pub fn update_levels(levels: &mut Vec<bool>, level: usize, is_last: bool)
    ensures
        final(levels)@ == spec_update_levels(old(levels)@, level as nat, is_last),
{
    proof {
        assert(levels@ =~= old(levels)@.take(levels@.len() as int));
    }
    while levels.len() > level
        invariant
            levels@.len() <= old(levels)@.len(),
            levels@ == old(levels)@.take(levels@.len() as int),
            levels@.len() >= level || levels@.len() == old(levels)@.len(),
        decreases levels@.len(),
    {
        levels.pop();
        proof {
            assert(levels@ =~= old(levels)@.take(levels@.len() as int));
        }
    }
    proof {
        assert(levels@ =~= spec_truncate(old(levels)@, level as nat));
    }
    if level > levels.len() {
        levels.push(!is_last);
    } else if levels.len() > 0 {
        levels.pop();
        levels.push(!is_last);
        proof {
            let t = spec_truncate(old(levels)@, level as nat);
            assert(levels@ =~= t.drop_last().push(!is_last));
        }
    }
}

/// The four glyphs of one ancestor level: a vertical bar with padding when
/// more siblings follow there, blank padding otherwise.
pub open spec fn spec_part(more: bool) -> Seq<char> {
    if more {
        "\u{2502}\u{a0}\u{a0} "@
    } else {
        "    "@
    }
}

/// The connector of the current entry: a branch when more siblings follow, a
/// terminal branch when this is the last sibling.
pub open spec fn spec_conn(more: bool) -> Seq<char> {
    if more {
        "\u{251c}\u{2500}\u{2500} "@
    } else {
        "\u{2514}\u{2500}\u{2500} "@
    }
}

/// The glyphs of all ancestor levels in `s`, in order.
pub open spec fn spec_bars(s: Seq<bool>) -> Seq<char>
    decreases s.len(),
{
    if s.len() == 0 {
        Seq::empty()
    } else {
        spec_bars(s.drop_last()) + spec_part(s.last())
    }
}

/// The whole prefix for the level stack `s`: bars for every ancestor level
/// but the last, then the connector chosen by the top of the stack. An empty
/// stack (the root line) has no prefix.
pub open spec fn spec_prefix(s: Seq<bool>) -> Seq<char> {
    if s.len() == 0 {
        Seq::empty()
    } else {
        spec_bars(s.drop_last()) + spec_conn(s.last())
    }
}

/// Replaces `prefix` with the connector-glyph prefix for the level stack
/// `levels`.
pub fn set_line_prefix(levels: &Vec<bool>, prefix: &mut String)
    ensures
        final(prefix)@ == spec_prefix(levels@),
{
    let mut p = String::new();
    let n = levels.len();
    if n == 0 {
        *prefix = p;
        return ;
    }
    proof {
        assert(levels@.take(0) =~= Seq::<bool>::empty());
    }
    let mut i: usize = 0;
    while i < n - 1
        invariant
            n == levels@.len(),
            1 <= n,
            i <= n - 1,
            p@ == spec_bars(levels@.take(i as int)),
        decreases n - 1 - i,
    {
        if levels[i] {
            p.append("\u{2502}\u{a0}\u{a0} ");
        } else {
            p.append("    ");
        }
        proof {
            let t = levels@.take(i as int + 1);
            assert(t.drop_last() =~= levels@.take(i as int));
            assert(t.last() == levels@[i as int]);
        }
        i = i + 1;
    }
    if levels[n - 1] {
        p.append("\u{251c}\u{2500}\u{2500} ");
    } else {
        p.append("\u{2514}\u{2500}\u{2500} ");
    }
    proof {
        assert(levels@.take(n as int - 1) =~= levels@.drop_last());
    }
    *prefix = p;
}

/// Every level contributes four glyphs, so a prefix is exactly four glyphs
/// per open level.
pub proof fn lemma_prefix_len(s: Seq<bool>)
    ensures
        spec_prefix(s).len() == 4 * s.len(),
    decreases s.len(),
{
    reveal_strlit("\u{2502}\u{a0}\u{a0} ");
    reveal_strlit("    ");
    reveal_strlit("\u{251c}\u{2500}\u{2500} ");
    reveal_strlit("\u{2514}\u{2500}\u{2500} ");
    if s.len() > 0 {
        lemma_bars_len(s.drop_last());
    }
}

/// The bar section alone is four glyphs per level.
pub proof fn lemma_bars_len(s: Seq<bool>)
    ensures
        spec_bars(s).len() == 4 * s.len(),
    decreases s.len(),
{
    reveal_strlit("\u{2502}\u{a0}\u{a0} ");
    reveal_strlit("    ");
    if s.len() > 0 {
        lemma_bars_len(s.drop_last());
    }
}

} // verus!

//! Selection decisions: which rows the typed text lets through, whether an
//! activated module requires a switch, and which row an entry activation
//! picks.

use vstd::prelude::*;
use crate::text::trim_of;
use crate::text::trim_spec;
use crate::text::has_sub;
use crate::text::contains_sub;
use crate::text::str_eq;
use crate::registry::ImModule;
use crate::registry::ImModuleView;
use crate::registry::views_of;

verus! {

/// An identifier passes the filter for the (already trimmed) query `t`:
/// an empty query lets everything through, otherwise the query must occur
/// in the identifier.
pub open spec fn id_matches(id: Seq<char>, t: Seq<char>) -> bool {
    t.len() == 0 || has_sub(id, t)
}

/// A row named `name` stays visible while `text` stands in the entry: the
/// trimmed text is empty or occurs in the name.
pub open spec fn row_matches_spec(name: Seq<char>, text: Seq<char>) -> bool {
    id_matches(name, trim_spec(text))
}

/// Decide [`row_matches_spec`] for a row name and the entry text.
pub fn row_matches(name: &str, text: &str) -> (r: bool)
    ensures
        r == row_matches_spec(name@, text@),
{
    let t = trim_of(text);
    if t.unicode_len() == 0 {
        true
    } else {
        contains_sub(name, t)
    }
}

/// Whether activating the module named `target` must switch the input
/// method: it must unless `target` is already the current one.
pub fn should_switch(current: &Option<String>, target: &str) -> (r: bool)
    ensures
        r == match current {
            Some(c) => c@ != target@,
            None => true,
        },
{
    match current {
        Some(c) => !str_eq(c.as_str(), target),
        None => true,
    }
}

/// The position of the first entry whose identifier is exactly `t`, or
/// `mods.len()` where there is none.
pub open spec fn first_exact_idx(mods: Seq<ImModuleView>, t: Seq<char>) -> int
    decreases mods.len(),
{
    if mods.len() == 0 {
        0
    } else if mods[0].id == t {
        0
    } else {
        1 + first_exact_idx(mods.drop_first(), t)
    }
}

/// The position of the first entry whose identifier passes the filter for
/// `t`, or `mods.len()` where there is none.
pub open spec fn first_match_idx(mods: Seq<ImModuleView>, t: Seq<char>) -> int
    decreases mods.len(),
{
    if mods.len() == 0 {
        0
    } else if id_matches(mods[0].id, t) {
        0
    } else {
        1 + first_match_idx(mods.drop_first(), t)
    }
}

/// A scan that saw no exact identifier before `k`, and one at `k` unless it
/// ran off the end, has found [`first_exact_idx`].
proof fn lemma_first_exact_from(mods: Seq<ImModuleView>, t: Seq<char>, k: int)
    requires
        0 <= k <= mods.len(),
        forall|j: int| 0 <= j < k ==> (#[trigger] mods[j]).id != t,
        k < mods.len() ==> mods[k].id == t,
    ensures
        first_exact_idx(mods, t) == k,
    decreases k,
{
    if k > 0 {
        assert(mods[0].id != t);
        assert forall|j: int| 0 <= j < k - 1 implies (#[trigger] mods.drop_first()[j]).id
            != t by {
            assert(mods.drop_first()[j] == mods[j + 1]);
        }
        assert(k - 1 < mods.drop_first().len() ==> mods.drop_first()[k - 1] == mods[k]);
        lemma_first_exact_from(mods.drop_first(), t, k - 1);
    }
}

/// A scan that saw no filter match before `k`, and one at `k` unless it ran
/// off the end, has found [`first_match_idx`].
proof fn lemma_first_match_from(mods: Seq<ImModuleView>, t: Seq<char>, k: int)
    requires
        0 <= k <= mods.len(),
        forall|j: int| 0 <= j < k ==> !id_matches((#[trigger] mods[j]).id, t),
        k < mods.len() ==> id_matches(mods[k].id, t),
    ensures
        first_match_idx(mods, t) == k,
    decreases k,
{
    if k > 0 {
        assert(!id_matches(mods[0].id, t));
        assert forall|j: int| 0 <= j < k - 1 implies !id_matches(
            (#[trigger] mods.drop_first()[j]).id,
            t,
        ) by {
            assert(mods.drop_first()[j] == mods[j + 1]);
        }
        assert(k - 1 < mods.drop_first().len() ==> mods.drop_first()[k - 1] == mods[k]);
        lemma_first_match_from(mods.drop_first(), t, k - 1);
    }
}

/// Which entry an activation of the entry text picks: the first whose
/// identifier equals the trimmed text, else the first left visible by the
/// filter, else none.
pub open spec fn choose_activation_spec(mods: Seq<ImModuleView>, t: Seq<char>) -> Option<int> {
    if first_exact_idx(mods, t) < mods.len() {
        Some(first_exact_idx(mods, t))
    } else if first_match_idx(mods, t) < mods.len() {
        Some(first_match_idx(mods, t))
    } else {
        None
    }
}

/// Pick the row that pressing enter in the entry activates, as
/// [`choose_activation_spec`] says, over the trimmed entry text.
pub fn choose_activation(modules: &Vec<ImModule>, text: &str) -> (r: Option<usize>)
    ensures
        match r {
            Some(i) => i < modules@.len() && choose_activation_spec(
                views_of(modules@),
                trim_spec(text@),
            ) == Some(i as int),
            None => choose_activation_spec(views_of(modules@), trim_spec(text@)) is None,
        },
{
    let ghost mods = views_of(modules@);
    let t = trim_of(text);
    let n = modules.len();
    let mut i: usize = 0;
    while i < n
        invariant
            n == modules@.len(),
            mods == views_of(modules@),
            t@ == trim_spec(text@),
            0 <= i <= n,
            forall|j: int| 0 <= j < i ==> (#[trigger] mods[j]).id != t@,
        decreases n - i,
    {
        if str_eq(modules[i].id.as_str(), t) {
            proof {
                assert(mods[i as int] == modules@[i as int]@);
                lemma_first_exact_from(mods, t@, i as int);
            }
            return Some(i);
        }
        proof {
            assert(mods[i as int] == modules@[i as int]@);
        }
        i = i + 1;
    }
    proof {
        lemma_first_exact_from(mods, t@, n as int);
    }
    let empty = t.unicode_len() == 0;
    let mut i2: usize = 0;
    while i2 < n
        invariant
            n == modules@.len(),
            mods == views_of(modules@),
            t@ == trim_spec(text@),
            empty == (t@.len() == 0),
            first_exact_idx(mods, t@) == n,
            0 <= i2 <= n,
            forall|j: int| 0 <= j < i2 ==> !id_matches((#[trigger] mods[j]).id, t@),
        decreases n - i2,
    {
        let hit = if empty {
            true
        } else {
            contains_sub(modules[i2].id.as_str(), t)
        };
        proof {
            assert(mods[i2 as int] == modules@[i2 as int]@);
        }
        if hit {
            proof {
                lemma_first_match_from(mods, t@, i2 as int);
            }
            return Some(i2);
        }
        i2 = i2 + 1;
    }
    proof {
        lemma_first_match_from(mods, t@, n as int);
    }
    None
}

} // verus!

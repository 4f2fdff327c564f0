//! Where the arrow that points at a match goes, and which labels the arrows run into.

use vstd::prelude::*;

verus! {

/// A side of a match on which an arrow can stand.
#[derive(Clone, Copy, Debug, PartialEq, Eq, Structural)]
pub enum ArrowSide {
    /// Below the match, pointing up.
    Bottom,
    /// Above the match, pointing down.
    Top,
    /// Left of the match, pointing right.
    Left,
    /// Right of the match, pointing left.
    Right,
}

/// For each side of a match, whether an arrow there would run into other text.
#[derive(Clone, Copy, Debug, PartialEq, Eq, Structural)]
pub struct Blocked {
    pub bottom: bool,
    pub top: bool,
    pub left: bool,
    pub right: bool,
}

/// The arrows to draw for one match.
#[derive(Clone, Copy, Debug, PartialEq, Eq, Structural)]
pub enum ArrowPlan {
    /// One arrow, on a side where it runs into nothing.
    Free(ArrowSide),
    /// No side is free: an arrow below the match all the same, and a smaller one on
    /// either flank of it if `flanked`.
    Crowded { flanked: bool },
}

/// The plan for a match: the first free side among bottom, top, left and right. Where
/// none is free, the arrows go below, with flanking arrows for a wide match.
pub open spec fn planned(blocked: Blocked, wide: bool) -> ArrowPlan {
    if !blocked.bottom {
        ArrowPlan::Free(ArrowSide::Bottom)
    } else if !blocked.top {
        ArrowPlan::Free(ArrowSide::Top)
    } else if !blocked.left {
        ArrowPlan::Free(ArrowSide::Left)
    } else if !blocked.right {
        ArrowPlan::Free(ArrowSide::Right)
    } else {
        ArrowPlan::Crowded { flanked: wide }
    }
}

/// Whether one of the labels that an arrow would touch stands in its way: a label that
/// the search found does not, since the arrows are there to point at it.
pub open spec fn in_the_way(touched: Seq<bool>, results: Seq<usize>) -> bool {
    exists|i: int| 0 <= i < touched.len() && #[trigger] touched[i] && !results.contains(i as usize)
}

/// Whether the numbers of a sequence rise from each to the next.
pub open spec fn rising(s: Seq<usize>) -> bool {
    forall|a: int, b: int| 0 <= a < b < s.len() ==> s[a] < s[b]
}

/// Decides which arrows to draw for a match, given the sides on which an arrow would
/// run into other text and whether the match is wide.
pub fn plan_arrows(blocked: Blocked, wide: bool) -> (plan: ArrowPlan)
    ensures
        plan == planned(blocked, wide),
{
    if !blocked.bottom {
        ArrowPlan::Free(ArrowSide::Bottom)
    } else if !blocked.top {
        ArrowPlan::Free(ArrowSide::Top)
    } else if !blocked.left {
        ArrowPlan::Free(ArrowSide::Left)
    } else if !blocked.right {
        ArrowPlan::Free(ArrowSide::Right)
    } else {
        ArrowPlan::Crowded { flanked: wide }
    }
}

/// Whether `list` holds `value`.
pub fn holds(list: &Vec<usize>, value: usize) -> (found: bool)
    ensures
        found == list@.contains(value),
{
    let mut i: usize = 0;
    while i < list.len()
        invariant
            i <= list@.len(),
            forall|j: int| 0 <= j < i ==> list@[j] != value,
        decreases list@.len() - i,
    {
        if list[i] == value {
            return true;
        }
        i = i + 1;
    }
    false
}

/// Says whether an arrow runs into other text, given for each label of the page whether
/// the arrow would touch it, and the labels that the search found.
pub fn blocks(touched: &Vec<bool>, results: &Vec<usize>) -> (blocked: bool)
    ensures
        blocked == in_the_way(touched@, results@),
{
    let mut i: usize = 0;
    while i < touched.len()
        invariant
            i <= touched@.len(),
            forall|j: int| 0 <= j < i ==> !(#[trigger] touched@[j] && !results@.contains(j as usize)),
        decreases touched@.len() - i,
    {
        if touched[i] && !holds(results, i) {
            return true;
        }
        i = i + 1;
    }
    false
}

/// Finds the label under the pointer: the first one for which `under` holds `true`.
pub fn first_hit(under: &Vec<bool>) -> (hit: Option<usize>)
    ensures
        hit matches Some(i) ==> i < under@.len() && under@[i as int] && forall|j: int|
            0 <= j < i ==> !under@[j],
        hit is None ==> forall|j: int| 0 <= j < under@.len() ==> !under@[j],
{
    let mut i: usize = 0;
    while i < under.len()
        invariant
            i <= under@.len(),
            forall|j: int| 0 <= j < i ==> !under@[j],
        decreases under@.len() - i,
    {
        if under[i] {
            return Some(i);
        }
        i = i + 1;
    }
    None
}

/// Puts one more index into a rising list, unless it is there already.
fn insert_rising(list: &mut Vec<usize>, index: usize)
    requires
        rising(old(list)@),
    ensures
        rising(final(list)@),
        forall|v: usize| final(list)@.contains(v) <==> (old(list)@.contains(v) || v == index),
{
    let mut at: usize = 0;
    while at < list.len() && list[at] < index
        invariant
            at <= list@.len(),
            list@ == old(list)@,
            forall|j: int| 0 <= j < at ==> list@[j] < index,
        decreases list@.len() - at,
    {
        at = at + 1;
    }
    if at < list.len() && list[at] == index {
        assert(list@.contains(index));
    } else {
        let ghost before = list@;
        list.insert(at, index);
        assert(list@[at as int] == index);
        assert forall|v: usize| list@.contains(v) <==> (before.contains(v) || v == index) by {
            if before.contains(v) {
                let j = choose|j: int| 0 <= j < before.len() && before[j] == v;
                if j < at {
                    assert(list@[j] == v);
                } else {
                    assert(list@[j + 1] == v);
                }
            }
            if list@.contains(v) && v != index {
                let j = choose|j: int| 0 <= j < list@.len() && list@[j] == v;
                if j < at {
                    assert(before[j] == v);
                } else {
                    assert(before[j - 1] == v);
                }
            }
        }
    }
}

/// The indices in `found`, each once, in rising order.
pub fn sorted_unique(found: &Vec<usize>) -> (list: Vec<usize>)
    ensures
        rising(list@),
        forall|v: usize| list@.contains(v) <==> found@.contains(v),
{
    let mut list: Vec<usize> = Vec::new();
    let mut i: usize = 0;
    while i < found.len()
        invariant
            i <= found@.len(),
            rising(list@),
            forall|v: usize| list@.contains(v) <==> found@.take(i as int).contains(v),
        decreases found@.len() - i,
    {
        let ghost before = list@;
        insert_rising(&mut list, found[i]);
        proof {
            let longer = found@.take(i + 1);
            let shorter = found@.take(i as int);
            assert forall|v: usize| list@.contains(v) <==> longer.contains(v) by {
                if longer.contains(v) {
                    let j = choose|j: int| 0 <= j < longer.len() && longer[j] == v;
                    if j < i {
                        assert(shorter[j] == v);
                    }
                }
                if shorter.contains(v) {
                    let j = choose|j: int| 0 <= j < shorter.len() && shorter[j] == v;
                    assert(longer[j] == v);
                }
                assert(longer[i as int] == found@[i as int]);
            }
        }
        i = i + 1;
    }
    proof {
        assert(found@.take(found@.len() as int) == found@);
    }
    list
}

} // verus!

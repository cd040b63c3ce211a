//! Constructive solid geometry: combining the hits of two objects.
//!
//! A ray's hits with each operand arrive sorted by distance.  The merger
//! walks both lists at once; at each step the pair (entering the left
//! operand?, entering the right operand?, is the left hit farther?) selects,
//! through a fixed table per mode, whether the nearer-candidate left or right
//! hit is kept as an entry or an exit of the combined solid, or dropped.
//! When one list runs out, the rest of the other is kept or dropped by mode.
//!
//! A hit is carried as a [`HitRecord`]: its distance (the encoding of an
//! `f32`), whether the ray enters the object there, and a tag by which the
//! caller finds the full hit again.
use vstd::prelude::*;
use crate::float_bits::{bits_lt, gt, is_nan, order_key};

verus! {

/// How two operands combine.
#[derive(Clone, Copy, PartialEq, Eq, Structural, Debug)]
pub enum Mode {
    CsgUnion,
    CsgInter,
    CsgDiff,
}

/// What the merger does with the current pair of hits.
#[derive(Clone, Copy, PartialEq, Eq, Structural, Debug)]
pub enum Action {
    /// Keep the left hit as an entry.
    CsgAEnter,
    /// Keep the left hit as an exit.
    CsgAExit,
    /// Skip the left hit.
    CsgADrop,
    /// Keep the right hit as an entry.
    CsgBEnter,
    /// Keep the right hit as an exit.
    CsgBExit,
    /// Skip the right hit.
    CsgBDrop,
}

/// The part of a hit that the merger reads, and a tag to find it again.
#[derive(Clone, Copy, PartialEq, Eq, Structural, Debug)]
pub struct HitRecord {
    /// Encoding of the `f32` distance along the ray.
    pub distance: u32,
    /// Whether the ray enters the object at this hit.
    pub entering: bool,
    /// Caller's handle for the full hit.
    pub tag: usize,
}

/// The action table, indexed by mode and by the state
/// `4·(left entering) + 2·(right entering) + (left farther)`.
pub open spec fn action_table(mode: Mode, state: int) -> Action {
    match mode {
        Mode::CsgUnion => if state == 0 {
            Action::CsgADrop
        } else if state == 1 {
            Action::CsgBDrop
        } else if state == 2 {
            Action::CsgAExit
        } else if state == 3 {
            Action::CsgBDrop
        } else if state == 4 {
            Action::CsgADrop
        } else if state == 5 {
            Action::CsgBExit
        } else if state == 6 {
            Action::CsgAEnter
        } else {
            Action::CsgBEnter
        },
        Mode::CsgInter => if state == 0 {
            Action::CsgAExit
        } else if state == 1 {
            Action::CsgBExit
        } else if state == 2 {
            Action::CsgADrop
        } else if state == 3 {
            Action::CsgBEnter
        } else if state == 4 {
            Action::CsgAEnter
        } else if state == 5 {
            Action::CsgBDrop
        } else if state == 6 {
            Action::CsgADrop
        } else {
            Action::CsgBDrop
        },
        Mode::CsgDiff => if state == 0 {
            Action::CsgADrop
        } else if state == 1 {
            Action::CsgBEnter
        } else if state == 2 {
            Action::CsgAExit
        } else if state == 3 {
            Action::CsgBExit
        } else if state == 4 {
            Action::CsgADrop
        } else if state == 5 {
            Action::CsgBDrop
        } else if state == 6 {
            Action::CsgAEnter
        } else {
            Action::CsgBDrop
        },
    }
}

/// The table entry for `mode` and `state`.
pub fn action(mode: Mode, state: usize) -> (a: Action)
    requires
        state < 8,
    ensures
        a == action_table(mode, state as int),
{
    match mode {
        Mode::CsgUnion => match state {
            0 => Action::CsgADrop,
            1 => Action::CsgBDrop,
            2 => Action::CsgAExit,
            3 => Action::CsgBDrop,
            4 => Action::CsgADrop,
            5 => Action::CsgBExit,
            6 => Action::CsgAEnter,
            _ => Action::CsgBEnter,
        },
        Mode::CsgInter => match state {
            0 => Action::CsgAExit,
            1 => Action::CsgBExit,
            2 => Action::CsgADrop,
            3 => Action::CsgBEnter,
            4 => Action::CsgAEnter,
            5 => Action::CsgBDrop,
            6 => Action::CsgADrop,
            _ => Action::CsgBDrop,
        },
        Mode::CsgDiff => match state {
            0 => Action::CsgADrop,
            1 => Action::CsgBEnter,
            2 => Action::CsgAExit,
            3 => Action::CsgBExit,
            4 => Action::CsgADrop,
            5 => Action::CsgBDrop,
            6 => Action::CsgAEnter,
            _ => Action::CsgBDrop,
        },
    }
}

/// The state of a pair of current hits.
pub open spec fn hit_state(a: HitRecord, b: HitRecord) -> int {
    (if a.entering {
        4int
    } else {
        0int
    }) + (if b.entering {
        2int
    } else {
        0int
    }) + (if gt(a.distance, b.distance) {
        1int
    } else {
        0int
    })
}

/// The state of the pair `(a, b)`.
pub fn state_of(a: &HitRecord, b: &HitRecord) -> (s: usize)
    ensures
        s == hit_state(*a, *b),
        s < 8,
{
    let mut state: usize = 0;
    if a.entering {
        state = state + 4;
    }
    if b.entering {
        state = state + 2;
    }
    if bits_lt(b.distance, a.distance) {
        state = state + 1;
    }
    state
}

/// `h` with its entering flag set to `entering`.
pub open spec fn with_entering(h: HitRecord, entering: bool) -> HitRecord {
    HitRecord { entering, ..h }
}

/// What is kept once the walk over both lists stops at `(i, j)`.
pub open spec fn merge_tail(mode: Mode, l: Seq<HitRecord>, r: Seq<HitRecord>, i: int, j: int) -> Seq<
    HitRecord,
> {
    match mode {
        Mode::CsgDiff => if i < l.len() {
            l.subrange(i, l.len() as int)
        } else {
            Seq::empty()
        },
        Mode::CsgUnion => if i >= l.len() {
            r.subrange(j, r.len() as int)
        } else {
            l.subrange(i, l.len() as int)
        },
        Mode::CsgInter => Seq::empty(),
    }
}

/// The hits of the combined solid from position `i` of the left list and
/// `j` of the right list on.
pub open spec fn merge_from(mode: Mode, l: Seq<HitRecord>, r: Seq<HitRecord>, i: int, j: int) -> Seq<
    HitRecord,
>
    decreases l.len() - i + r.len() - j,
{
    if 0 <= i < l.len() && 0 <= j < r.len() {
        match action_table(mode, hit_state(l[i], r[j])) {
            Action::CsgAEnter => seq![with_entering(l[i], true)] + merge_from(mode, l, r, i + 1, j),
            Action::CsgAExit => seq![with_entering(l[i], false)] + merge_from(mode, l, r, i + 1, j),
            Action::CsgADrop => merge_from(mode, l, r, i + 1, j),
            Action::CsgBEnter => seq![with_entering(r[j], true)] + merge_from(mode, l, r, i, j + 1),
            Action::CsgBExit => seq![with_entering(r[j], false)] + merge_from(mode, l, r, i, j + 1),
            Action::CsgBDrop => merge_from(mode, l, r, i, j + 1),
        }
    } else {
        merge_tail(mode, l, r, i, j)
    }
}

/// The hits of the combined solid, in the order the merger produces them.
pub open spec fn merged(mode: Mode, l: Seq<HitRecord>, r: Seq<HitRecord>) -> Seq<HitRecord> {
    merge_from(mode, l, r, 0, 0)
}

/// The first hit that the merger keeps from position `(i, j)` on, as it
/// stood in its operand's list.
pub open spec fn first_from(mode: Mode, l: Seq<HitRecord>, r: Seq<HitRecord>, i: int, j: int) -> Option<
    HitRecord,
>
    decreases l.len() - i + r.len() - j,
{
    if 0 <= i < l.len() && 0 <= j < r.len() {
        match action_table(mode, hit_state(l[i], r[j])) {
            Action::CsgAEnter => Some(l[i]),
            Action::CsgAExit => Some(l[i]),
            Action::CsgADrop => first_from(mode, l, r, i + 1, j),
            Action::CsgBEnter => Some(r[j]),
            Action::CsgBExit => Some(r[j]),
            Action::CsgBDrop => first_from(mode, l, r, i, j + 1),
        }
    } else {
        match mode {
            Mode::CsgDiff => if 0 <= i < l.len() {
                Some(l[i])
            } else {
                None
            },
            Mode::CsgUnion => if i >= l.len() {
                if 0 <= j < r.len() {
                    Some(r[j])
                } else {
                    None
                }
            } else if 0 <= i {
                Some(l[i])
            } else {
                None
            },
            Mode::CsgInter => None,
        }
    }
}

/// The first hit of the combined solid, as it stood in its operand's list.
pub open spec fn first_merged(mode: Mode, l: Seq<HitRecord>, r: Seq<HitRecord>) -> Option<HitRecord> {
    first_from(mode, l, r, 0, 0)
}

/// Whether `s` holds, at position `i` or later, a hit with the distance and
/// tag of `h`.
pub open spec fn occurs_from(h: HitRecord, s: Seq<HitRecord>, i: int) -> bool {
    exists|a: int| i <= a < s.len() && #[trigger] s[a].distance == h.distance && s[a].tag == h.tag
}

/// Whether the distances of `s` from position `i` on are ordered and none is
/// a NaN.
pub open spec fn sorted_from(s: Seq<HitRecord>, i: int) -> bool {
    &&& forall|a: int| i <= a < s.len() ==> !is_nan(#[trigger] s[a].distance)
    &&& forall|a: int, b: int|
        i <= a <= b < s.len() ==> order_key(#[trigger] s[a].distance) <= order_key(
            #[trigger] s[b].distance,
        )
}

/// The merger only consumes hits: from `(i, j)` on it keeps at most the
/// hits that remain, and each hit it keeps is one of them (same distance
/// and tag; only the entering flag may be replaced).
pub proof fn lemma_merge_from_sources(
    mode: Mode,
    l: Seq<HitRecord>,
    r: Seq<HitRecord>,
    i: int,
    j: int,
)
    requires
        0 <= i <= l.len(),
        0 <= j <= r.len(),
    ensures
        merge_from(mode, l, r, i, j).len() <= (l.len() - i) + (r.len() - j),
        forall|k: int|
            0 <= k < merge_from(mode, l, r, i, j).len() ==> occurs_from(
                #[trigger] merge_from(mode, l, r, i, j)[k],
                l,
                i,
            ) || occurs_from(merge_from(mode, l, r, i, j)[k], r, j),
    decreases l.len() - i + r.len() - j,
{
    let out = merge_from(mode, l, r, i, j);
    if i < l.len() && j < r.len() {
        let act = action_table(mode, hit_state(l[i], r[j]));
        if act is CsgAEnter || act is CsgAExit || act is CsgADrop {
            lemma_merge_from_sources(mode, l, r, i + 1, j);
            let rest = merge_from(mode, l, r, i + 1, j);
            assert forall|k: int| 0 <= k < out.len() implies occurs_from(
                #[trigger] out[k],
                l,
                i,
            ) || occurs_from(out[k], r, j) by {
                if act is CsgADrop {
                    assert(out[k] == rest[k]);
                } else if k == 0 {
                    assert(l[i].distance == out[0].distance);
                } else {
                    assert(out[k] == rest[k - 1]);
                }
                if occurs_from(out[k], l, i + 1) {
                    let a = choose|a: int|
                        i + 1 <= a < l.len() && #[trigger] l[a].distance == out[k].distance
                            && l[a].tag == out[k].tag;
                    assert(l[a].distance == out[k].distance);
                }
            }
        } else {
            lemma_merge_from_sources(mode, l, r, i, j + 1);
            let rest = merge_from(mode, l, r, i, j + 1);
            assert forall|k: int| 0 <= k < out.len() implies occurs_from(
                #[trigger] out[k],
                l,
                i,
            ) || occurs_from(out[k], r, j) by {
                if act is CsgBDrop {
                    assert(out[k] == rest[k]);
                } else if k == 0 {
                    assert(r[j].distance == out[0].distance);
                } else {
                    assert(out[k] == rest[k - 1]);
                }
                if occurs_from(out[k], r, j + 1) {
                    let b = choose|b: int|
                        j + 1 <= b < r.len() && #[trigger] r[b].distance == out[k].distance
                            && r[b].tag == out[k].tag;
                    assert(r[b].distance == out[k].distance);
                }
            }
        }
    } else {
        assert forall|k: int| 0 <= k < out.len() implies occurs_from(
            #[trigger] out[k],
            l,
            i,
        ) || occurs_from(out[k], r, j) by {
            if mode is CsgDiff || (mode is CsgUnion && i < l.len()) {
                assert(out[k] == l[i + k]);
                assert(l[i + k].distance == out[k].distance);
            } else {
                assert(out[k] == r[j + k]);
                assert(r[j + k].distance == out[k].distance);
            }
        }
    }
}

/// Every hit of the combined solid is a hit of one of the operands, and
/// there are no more of them than the operands have together.
pub proof fn lemma_merged_hits_come_from_operands(
    mode: Mode,
    l: Seq<HitRecord>,
    r: Seq<HitRecord>,
)
    ensures
        merged(mode, l, r).len() <= l.len() + r.len(),
        forall|k: int|
            0 <= k < merged(mode, l, r).len() ==> occurs_from(
                #[trigger] merged(mode, l, r)[k],
                l,
                0,
            ) || occurs_from(merged(mode, l, r)[k], r, 0),
{
    lemma_merge_from_sources(mode, l, r, 0, 0);
}

/// The merger always takes the nearer of the two current hits (the left one
/// on a tie), so from `(i, j)` on it keeps sorted operands sorted, starting
/// no nearer than the nearer of the two current hits.
pub proof fn lemma_merge_from_sorted(
    mode: Mode,
    l: Seq<HitRecord>,
    r: Seq<HitRecord>,
    i: int,
    j: int,
)
    requires
        0 <= i <= l.len(),
        0 <= j <= r.len(),
        sorted_from(l, i),
        sorted_from(r, j),
    ensures
        sorted_from(merge_from(mode, l, r, i, j), 0),
        forall|k: int|
            0 <= k < merge_from(mode, l, r, i, j).len() ==> (i < l.len() ==> order_key(
                l[i].distance,
            ) <= order_key(#[trigger] merge_from(mode, l, r, i, j)[k].distance)) || (j < r.len()
                ==> order_key(r[j].distance) <= order_key(merge_from(mode, l, r, i, j)[k].distance)),
    decreases l.len() - i + r.len() - j,
{
    let out = merge_from(mode, l, r, i, j);
    lemma_merge_from_sources(mode, l, r, i, j);
    assert forall|k: int| 0 <= k < out.len() implies !is_nan(#[trigger] out[k].distance) && ((
    i < l.len() ==> order_key(l[i].distance) <= order_key(out[k].distance)) || (j < r.len()
        ==> order_key(r[j].distance) <= order_key(out[k].distance))) by {
        if occurs_from(out[k], l, i) {
            let a = choose|a: int|
                i <= a < l.len() && #[trigger] l[a].distance == out[k].distance && l[a].tag
                    == out[k].tag;
            assert(order_key(l[i].distance) <= order_key(l[a].distance));
        } else {
            let b = choose|b: int|
                j <= b < r.len() && #[trigger] r[b].distance == out[k].distance && r[b].tag
                    == out[k].tag;
            assert(order_key(r[j].distance) <= order_key(r[b].distance));
        }
    }
    if i < l.len() && j < r.len() {
        let act = action_table(mode, hit_state(l[i], r[j]));
        let left_nearer = !gt(l[i].distance, r[j].distance);
        if act is CsgAEnter || act is CsgAExit || act is CsgADrop {
            assert(left_nearer);
            lemma_merge_from_sorted(mode, l, r, i + 1, j);
            let rest = merge_from(mode, l, r, i + 1, j);
            if !(act is CsgADrop) {
                assert(out == seq![out[0]] + rest);
                assert forall|a: int, b: int| 0 <= a <= b < out.len() implies order_key(
                    #[trigger] out[a].distance,
                ) <= order_key(#[trigger] out[b].distance) by {
                    if a == 0 && b > 0 {
                        assert(out[b] == rest[b - 1]);
                    } else if a > 0 {
                        assert(out[a] == rest[a - 1]);
                        assert(out[b] == rest[b - 1]);
                    }
                }
            }
        } else {
            assert(!left_nearer);
            lemma_merge_from_sorted(mode, l, r, i, j + 1);
            let rest = merge_from(mode, l, r, i, j + 1);
            if !(act is CsgBDrop) {
                assert(out == seq![out[0]] + rest);
                assert forall|a: int, b: int| 0 <= a <= b < out.len() implies order_key(
                    #[trigger] out[a].distance,
                ) <= order_key(#[trigger] out[b].distance) by {
                    if a == 0 && b > 0 {
                        assert(out[b] == rest[b - 1]);
                    } else if a > 0 {
                        assert(out[a] == rest[a - 1]);
                        assert(out[b] == rest[b - 1]);
                    }
                }
            }
        }
    } else {
        assert forall|a: int, b: int| 0 <= a <= b < out.len() implies order_key(
            #[trigger] out[a].distance,
        ) <= order_key(#[trigger] out[b].distance) by {
            if mode is CsgDiff || (mode is CsgUnion && i < l.len()) {
                assert(out[a] == l[i + a]);
                assert(out[b] == l[i + b]);
            } else {
                assert(out[a] == r[j + a]);
                assert(out[b] == r[j + b]);
            }
        }
    }
}

/// Merging hit lists that are sorted by distance (and hold no NaN) yields a
/// list sorted by distance.
pub proof fn lemma_merged_sorted(mode: Mode, l: Seq<HitRecord>, r: Seq<HitRecord>)
    requires
        sorted_from(l, 0),
        sorted_from(r, 0),
    ensures
        sorted_from(merged(mode, l, r), 0),
{
    lemma_merge_from_sorted(mode, l, r, 0, 0);
}

/// From `(i, j)` on, the first kept hit is the first merged hit before its
/// entering flag is replaced.
pub proof fn lemma_first_from_merge_from(
    mode: Mode,
    l: Seq<HitRecord>,
    r: Seq<HitRecord>,
    i: int,
    j: int,
)
    requires
        0 <= i <= l.len(),
        0 <= j <= r.len(),
    ensures
        first_from(mode, l, r, i, j) is Some <==> merge_from(mode, l, r, i, j).len() > 0,
        first_from(mode, l, r, i, j) matches Some(h) ==> h.distance == merge_from(
            mode,
            l,
            r,
            i,
            j,
        )[0].distance && h.tag == merge_from(mode, l, r, i, j)[0].tag,
    decreases l.len() - i + r.len() - j,
{
    if i < l.len() && j < r.len() {
        let act = action_table(mode, hit_state(l[i], r[j]));
        if act is CsgADrop {
            lemma_first_from_merge_from(mode, l, r, i + 1, j);
        } else if act is CsgBDrop {
            lemma_first_from_merge_from(mode, l, r, i, j + 1);
        }
    }
}

/// The first-hit merger of a CSG object picks the same hit (distance and
/// tag) as the full merger puts first, and finds one exactly when the full
/// merger keeps any.
pub proof fn lemma_first_hit_is_first_merged(mode: Mode, l: Seq<HitRecord>, r: Seq<HitRecord>)
    ensures
        first_merged(mode, l, r) is Some <==> merged(mode, l, r).len() > 0,
        first_merged(mode, l, r) matches Some(h) ==> h.distance == merged(mode, l, r)[0].distance
            && h.tag == merged(mode, l, r)[0].tag,
{
    lemma_first_from_merge_from(mode, l, r, 0, 0);
}

/// From `(i, j)` on, the first kept hit is, field for field, a hit of one
/// of the operands at or after its position.
pub proof fn lemma_first_from_is_operand_hit(
    mode: Mode,
    l: Seq<HitRecord>,
    r: Seq<HitRecord>,
    i: int,
    j: int,
)
    requires
        0 <= i,
        0 <= j,
    ensures
        first_from(mode, l, r, i, j) matches Some(h) ==> (exists|a: int|
            i <= a < l.len() && #[trigger] l[a] == h) || (exists|b: int|
            j <= b < r.len() && #[trigger] r[b] == h),
    decreases l.len() - i + r.len() - j,
{
    if i < l.len() && j < r.len() {
        let act = action_table(mode, hit_state(l[i], r[j]));
        if act is CsgADrop {
            lemma_first_from_is_operand_hit(mode, l, r, i + 1, j);
        } else if act is CsgBDrop {
            lemma_first_from_is_operand_hit(mode, l, r, i, j + 1);
        } else if act is CsgAEnter || act is CsgAExit {
            assert(l[i] == l[i]);
        } else {
            assert(r[j] == r[j]);
        }
    } else if i < l.len() {
        assert(l[i] == l[i]);
    } else if j < r.len() {
        assert(r[j] == r[j]);
    }
}

/// The first hit of a combined solid is a hit of one of its operands as it
/// stands in that operand's list, entering flag included: it is never made
/// up or relabelled, only chosen.
pub proof fn lemma_first_hit_is_operand_hit(mode: Mode, l: Seq<HitRecord>, r: Seq<HitRecord>)
    ensures
        first_merged(mode, l, r) matches Some(h) ==> (exists|a: int|
            0 <= a < l.len() && #[trigger] l[a] == h) || (exists|b: int|
            0 <= b < r.len() && #[trigger] r[b] == h),
{
    lemma_first_from_is_operand_hit(mode, l, r, 0, 0);
}

/// An empty operand: the union is the other operand, the intersection is
/// empty, and the difference is the left operand (or nothing when the left
/// operand is the empty one).
pub proof fn lemma_merge_with_empty(l: Seq<HitRecord>, r: Seq<HitRecord>)
    ensures
        merged(Mode::CsgUnion, l, Seq::empty()) == l,
        merged(Mode::CsgUnion, Seq::empty(), r) == r,
        merged(Mode::CsgInter, l, Seq::empty()) == Seq::<HitRecord>::empty(),
        merged(Mode::CsgInter, Seq::empty(), r) == Seq::<HitRecord>::empty(),
        merged(Mode::CsgDiff, l, Seq::empty()) == l,
        merged(Mode::CsgDiff, Seq::empty(), r) == Seq::<HitRecord>::empty(),
{
    assert(l.subrange(0, l.len() as int) =~= l);
    assert(r.subrange(0, r.len() as int) =~= r);
}

/// A well-formed solid's hits along a ray: entries and exits alternate,
/// starting with an entry, and every entry has its exit.
pub open spec fn alternating(s: Seq<HitRecord>) -> bool {
    &&& s.len() % 2 == 0
    &&& forall|k: int| 0 <= k < s.len() ==> (#[trigger] s[k]).entering == (k % 2 == 0)
}

/// Membership in the combined solid, from membership in the operands.
pub open spec fn combine(mode: Mode, in_left: bool, in_right: bool) -> bool {
    match mode {
        Mode::CsgUnion => in_left || in_right,
        Mode::CsgInter => in_left && in_right,
        Mode::CsgDiff => in_left && !in_right,
    }
}

/// How many hits of `s` lie nearer than the point with order key `t`.
pub open spec fn count_below(s: Seq<HitRecord>, t: int) -> nat
    decreases s.len(),
{
    if s.len() == 0 {
        0
    } else {
        (if order_key(s[0].distance) < t {
            1nat
        } else {
            0nat
        }) + count_below(s.drop_first(), t)
    }
}

/// Whether the point with order key `t` lies inside the solid whose hits
/// along the ray are `s`: an odd number of its hits lie nearer.
pub open spec fn inside(s: Seq<HitRecord>, t: int) -> bool {
    count_below(s, t) % 2 == 1
}

/// No hit of `s` lies exactly at the point with order key `t`.
pub open spec fn off_boundary(s: Seq<HitRecord>, t: int) -> bool {
    forall|k: int| 0 <= k < s.len() ==> order_key((#[trigger] s[k]).distance) != t
}

/// Whether `a` is one of the actions that consume the left hit.
pub open spec fn consumes_left(a: Action) -> bool {
    a is CsgAEnter || a is CsgAExit || a is CsgADrop
}

/// Whether `a` keeps a hit, and then whether as an entry.
pub open spec fn keeps(a: Action) -> bool {
    !(a is CsgADrop || a is CsgBDrop)
}

pub open spec fn keeps_as_entry(a: Action) -> bool {
    a is CsgAEnter || a is CsgBEnter
}

/// The action table is right: the nearer hit is consumed, and it is kept
/// exactly when crossing it changes membership in the combined solid, as an
/// entry exactly when the crossing enters it.
pub proof fn lemma_action_table_correct(mode: Mode, left_entering: bool, right_entering: bool, left_farther: bool)
    ensures
        ({
            let state = (if left_entering {
                4int
            } else {
                0int
            }) + (if right_entering {
                2int
            } else {
                0int
            }) + (if left_farther {
                1int
            } else {
                0int
            });
            let a = action_table(mode, state);
            let in_left = !left_entering;
            let in_right = !right_entering;
            let before = combine(mode, in_left, in_right);
            let after = if consumes_left(a) {
                combine(mode, !in_left, in_right)
            } else {
                combine(mode, in_left, !in_right)
            };
            &&& consumes_left(a) == !left_farther
            &&& keeps(a) == (before != after)
            &&& keeps(a) ==> keeps_as_entry(a) == after
        }),
{
}

proof fn lemma_count_below_cons(h: HitRecord, s: Seq<HitRecord>, t: int)
    ensures
        count_below(seq![h] + s, t) == (if order_key(h.distance) < t {
            1nat
        } else {
            0nat
        }) + count_below(s, t),
{
    assert((seq![h] + s).drop_first() =~= s);
}

proof fn lemma_count_below_none(s: Seq<HitRecord>, t: int)
    requires
        forall|k: int| 0 <= k < s.len() ==> t < order_key((#[trigger] s[k]).distance),
    ensures
        count_below(s, t) == 0,
    decreases s.len(),
{
    if s.len() > 0 {
        assert forall|k: int| 0 <= k < s.drop_first().len() implies t < order_key(
            (#[trigger] s.drop_first()[k]).distance,
        ) by {
            assert(s.drop_first()[k] == s[k + 1]);
        }
        lemma_count_below_none(s.drop_first(), t);
    }
}

proof fn lemma_suffix_cons(s: Seq<HitRecord>, i: int)
    requires
        0 <= i < s.len(),
    ensures
        s.subrange(i, s.len() as int) == seq![s[i]] + s.subrange(i + 1, s.len() as int),
{
    assert(s.subrange(i, s.len() as int) =~= seq![s[i]] + s.subrange(i + 1, s.len() as int));
}

/// From `(i, j)` on, with alternating operands, the kept hits alternate,
/// starting with an exit exactly when the walk is inside the combined solid,
/// and end outside it.
proof fn lemma_merge_from_alternates(
    mode: Mode,
    l: Seq<HitRecord>,
    r: Seq<HitRecord>,
    i: int,
    j: int,
)
    requires
        alternating(l),
        alternating(r),
        0 <= i <= l.len(),
        0 <= j <= r.len(),
    ensures
        ({
            let out = merge_from(mode, l, r, i, j);
            let inside_now = combine(mode, i % 2 == 1, j % 2 == 1);
            &&& out.len() % 2 == (if inside_now {
                1int
            } else {
                0int
            })
            &&& forall|k: int|
                0 <= k < out.len() ==> (#[trigger] out[k]).entering == ((k % 2 == 0)
                    != inside_now)
        }),
    decreases l.len() - i + r.len() - j,
{
    let out = merge_from(mode, l, r, i, j);
    if i < l.len() && j < r.len() {
        let a = action_table(mode, hit_state(l[i], r[j]));
        lemma_action_table_correct(
            mode,
            l[i].entering,
            r[j].entering,
            gt(l[i].distance, r[j].distance),
        );
        if consumes_left(a) {
            lemma_merge_from_alternates(mode, l, r, i + 1, j);
            let rest = merge_from(mode, l, r, i + 1, j);
            if keeps(a) {
                assert forall|k: int| 0 <= k < out.len() implies (#[trigger] out[k]).entering == ((k
                    % 2 == 0) != combine(mode, i % 2 == 1, j % 2 == 1)) by {
                    if k > 0 {
                        assert(out[k] == rest[k - 1]);
                    }
                }
            }
        } else {
            lemma_merge_from_alternates(mode, l, r, i, j + 1);
            let rest = merge_from(mode, l, r, i, j + 1);
            if keeps(a) {
                assert forall|k: int| 0 <= k < out.len() implies (#[trigger] out[k]).entering == ((k
                    % 2 == 0) != combine(mode, i % 2 == 1, j % 2 == 1)) by {
                    if k > 0 {
                        assert(out[k] == rest[k - 1]);
                    }
                }
            }
        }
    } else {
        assert forall|k: int| 0 <= k < out.len() implies (#[trigger] out[k]).entering == ((k % 2
            == 0) != combine(mode, i % 2 == 1, j % 2 == 1)) by {
            if mode is CsgDiff || (mode is CsgUnion && i < l.len()) {
                assert(out[k] == l[i + k]);
            } else {
                assert(out[k] == r[j + k]);
            }
        }
    }
}

/// Membership in the combined solid, counted from walk position `(i, j)`
/// up to the point with order key `t`, follows the operands.
pub open spec fn membership_from(
    mode: Mode,
    l: Seq<HitRecord>,
    r: Seq<HitRecord>,
    i: int,
    j: int,
    t: int,
) -> bool {
    let in_l = i % 2 == 1;
    let in_r = j % 2 == 1;
    combine(
        mode,
        in_l != (count_below(l.subrange(i, l.len() as int), t) % 2 == 1),
        in_r != (count_below(r.subrange(j, r.len() as int), t) % 2 == 1),
    ) == (combine(mode, in_l, in_r) != (count_below(merge_from(mode, l, r, i, j), t) % 2 == 1))
}

/// The walk requirements shared by the membership lemmas.
pub open spec fn walk_ready(l: Seq<HitRecord>, r: Seq<HitRecord>, t: int) -> bool {
    &&& alternating(l)
    &&& alternating(r)
    &&& sorted_from(l, 0)
    &&& sorted_from(r, 0)
    &&& off_boundary(l, t)
    &&& off_boundary(r, t)
}

/// A point nearer than both current hits: nothing is counted on any side.
proof fn lemma_membership_before_heads(
    mode: Mode,
    l: Seq<HitRecord>,
    r: Seq<HitRecord>,
    i: int,
    j: int,
    t: int,
)
    requires
        walk_ready(l, r, t),
        0 <= i < l.len(),
        0 <= j < r.len(),
        t < order_key(l[i].distance),
        t < order_key(r[j].distance),
    ensures
        membership_from(mode, l, r, i, j, t),
{
    let a_rest = l.subrange(i, l.len() as int);
    let b_rest = r.subrange(j, r.len() as int);
    let out = merge_from(mode, l, r, i, j);
    lemma_merge_from_sorted(mode, l, r, i, j);
    assert forall|k: int| 0 <= k < a_rest.len() implies t < order_key(
        (#[trigger] a_rest[k]).distance,
    ) by {
        assert(a_rest[k] == l[i + k]);
        assert(order_key(l[i].distance) <= order_key(l[i + k].distance));
    }
    assert forall|k: int| 0 <= k < b_rest.len() implies t < order_key(
        (#[trigger] b_rest[k]).distance,
    ) by {
        assert(b_rest[k] == r[j + k]);
        assert(order_key(r[j].distance) <= order_key(r[j + k].distance));
    }
    assert forall|k: int| 0 <= k < out.len() implies t < order_key(
        (#[trigger] out[k]).distance,
    ) by {
        assert(order_key(l[i].distance) <= order_key(out[k].distance) || order_key(
            r[j].distance,
        ) <= order_key(out[k].distance));
    }
    lemma_count_below_none(a_rest, t);
    lemma_count_below_none(b_rest, t);
    lemma_count_below_none(out, t);
}

/// Crossing the left hit `l[i]`, nearer than the point: the counts and the
/// combined membership move together.
proof fn lemma_membership_step_left(
    mode: Mode,
    l: Seq<HitRecord>,
    r: Seq<HitRecord>,
    i: int,
    j: int,
    t: int,
)
    requires
        walk_ready(l, r, t),
        0 <= i < l.len(),
        0 <= j < r.len(),
        consumes_left(action_table(mode, hit_state(l[i], r[j]))),
        order_key(l[i].distance) < t,
        membership_from(mode, l, r, i + 1, j, t),
    ensures
        membership_from(mode, l, r, i, j, t),
{
    let a = action_table(mode, hit_state(l[i], r[j]));
    lemma_action_table_correct(mode, l[i].entering, r[j].entering, gt(l[i].distance, r[j].distance));
    lemma_suffix_cons(l, i);
    lemma_count_below_cons(l[i], l.subrange(i + 1, l.len() as int), t);
    let rest = merge_from(mode, l, r, i + 1, j);
    let out = merge_from(mode, l, r, i, j);
    if keeps(a) {
        assert(out == seq![out[0]] + rest);
        lemma_count_below_cons(out[0], rest, t);
    }
}

/// Crossing the right hit `r[j]`, nearer than the point.
proof fn lemma_membership_step_right(
    mode: Mode,
    l: Seq<HitRecord>,
    r: Seq<HitRecord>,
    i: int,
    j: int,
    t: int,
)
    requires
        walk_ready(l, r, t),
        0 <= i < l.len(),
        0 <= j < r.len(),
        !consumes_left(action_table(mode, hit_state(l[i], r[j]))),
        order_key(r[j].distance) < t,
        membership_from(mode, l, r, i, j + 1, t),
    ensures
        membership_from(mode, l, r, i, j, t),
{
    let a = action_table(mode, hit_state(l[i], r[j]));
    lemma_action_table_correct(mode, l[i].entering, r[j].entering, gt(l[i].distance, r[j].distance));
    lemma_suffix_cons(r, j);
    lemma_count_below_cons(r[j], r.subrange(j + 1, r.len() as int), t);
    let rest = merge_from(mode, l, r, i, j + 1);
    let out = merge_from(mode, l, r, i, j);
    if keeps(a) {
        assert(out == seq![out[0]] + rest);
        lemma_count_below_cons(out[0], rest, t);
    }
}

/// One operand exhausted: the rest of the other is kept or dropped, as the
/// mode's operation with an empty operand asks.
proof fn lemma_membership_tail(
    mode: Mode,
    l: Seq<HitRecord>,
    r: Seq<HitRecord>,
    i: int,
    j: int,
    t: int,
)
    requires
        walk_ready(l, r, t),
        0 <= i <= l.len(),
        0 <= j <= r.len(),
        i == l.len() || j == r.len(),
    ensures
        membership_from(mode, l, r, i, j, t),
{
    let a_rest = l.subrange(i, l.len() as int);
    let b_rest = r.subrange(j, r.len() as int);
    let out = merge_from(mode, l, r, i, j);
    if i >= l.len() {
        assert(a_rest =~= Seq::<HitRecord>::empty());
    } else {
        assert(b_rest =~= Seq::<HitRecord>::empty());
    }
    if mode is CsgDiff || (mode is CsgUnion && i < l.len()) {
        if i < l.len() {
            assert(out == a_rest);
        }
    } else if mode is CsgUnion {
        assert(out == b_rest);
    }
}

/// From `(i, j)` on, membership in the combined solid changes exactly as
/// the operation of memberships in the operands does.
proof fn lemma_merge_from_membership(
    mode: Mode,
    l: Seq<HitRecord>,
    r: Seq<HitRecord>,
    i: int,
    j: int,
    t: int,
)
    requires
        walk_ready(l, r, t),
        0 <= i <= l.len(),
        0 <= j <= r.len(),
    ensures
        membership_from(mode, l, r, i, j, t),
    decreases l.len() - i + r.len() - j,
{
    if i < l.len() && j < r.len() {
        let a = action_table(mode, hit_state(l[i], r[j]));
        lemma_action_table_correct(mode, l[i].entering, r[j].entering, gt(l[i].distance, r[j].distance));
        assert(order_key(l[i].distance) != t);
        assert(order_key(r[j].distance) != t);
        if consumes_left(a) {
            if t < order_key(l[i].distance) {
                lemma_membership_before_heads(mode, l, r, i, j, t);
            } else {
                lemma_merge_from_membership(mode, l, r, i + 1, j, t);
                lemma_membership_step_left(mode, l, r, i, j, t);
            }
        } else {
            if t < order_key(r[j].distance) {
                lemma_membership_before_heads(mode, l, r, i, j, t);
            } else {
                lemma_merge_from_membership(mode, l, r, i, j + 1, t);
                lemma_membership_step_right(mode, l, r, i, j, t);
            }
        }
    } else {
        lemma_membership_tail(mode, l, r, i, j, t);
    }
}

/// Combining two well-formed solids yields a well-formed solid: its hits
/// alternate between entries and exits, starting with an entry, and every
/// entry has its exit.
pub proof fn lemma_merged_is_well_formed(mode: Mode, l: Seq<HitRecord>, r: Seq<HitRecord>)
    requires
        alternating(l),
        alternating(r),
    ensures
        alternating(merged(mode, l, r)),
{
    lemma_merge_from_alternates(mode, l, r, 0, 0);
}

/// The combined solid is the union, intersection or difference of its
/// operands: for well-formed, sorted operands, a point along the ray (off
/// every hit) lies inside the combination exactly when the mode's
/// operation of "inside the left operand" and "inside the right operand"
/// holds.
pub proof fn lemma_merged_is_set_operation(mode: Mode, l: Seq<HitRecord>, r: Seq<HitRecord>, t: int)
    requires
        alternating(l),
        alternating(r),
        sorted_from(l, 0),
        sorted_from(r, 0),
        off_boundary(l, t),
        off_boundary(r, t),
    ensures
        inside(merged(mode, l, r), t) == combine(mode, inside(l, t), inside(r, t)),
{
    lemma_merge_from_membership(mode, l, r, 0, 0, t);
    assert(l.subrange(0, l.len() as int) =~= l);
    assert(r.subrange(0, r.len() as int) =~= r);
}

/// Merges the sorted hit lists of the two operands into the hits of the
/// combined solid.
pub fn csg_merge(mode: Mode, left: &Vec<HitRecord>, right: &Vec<HitRecord>) -> (result: Vec<
    HitRecord,
>)
    ensures
        result@ == merged(mode, left@, right@),
{
    let mut result: Vec<HitRecord> = Vec::new();
    let mut i: usize = 0;
    let mut j: usize = 0;
    while i < left.len() && j < right.len()
        invariant
            i <= left.len(),
            j <= right.len(),
            merged(mode, left@, right@) == result@ + merge_from(
                mode,
                left@,
                right@,
                i as int,
                j as int,
            ),
        decreases left.len() - i + right.len() - j,
    {
        let state = state_of(&left[i], &right[j]);
        let ghost before = result@;
        match action(mode, state) {
            Action::CsgAEnter => {
                let mut h = left[i];
                h.entering = true;
                result.push(h);
                i = i + 1;
            },
            Action::CsgAExit => {
                let mut h = left[i];
                h.entering = false;
                result.push(h);
                i = i + 1;
            },
            Action::CsgADrop => {
                i = i + 1;
            },
            Action::CsgBEnter => {
                let mut h = right[j];
                h.entering = true;
                result.push(h);
                j = j + 1;
            },
            Action::CsgBExit => {
                let mut h = right[j];
                h.entering = false;
                result.push(h);
                j = j + 1;
            },
            Action::CsgBDrop => {
                j = j + 1;
            },
        }
        assert(merged(mode, left@, right@) =~= result@ + merge_from(
            mode,
            left@,
            right@,
            i as int,
            j as int,
        ));
    }
    let ghost head = result@;
    match mode {
        Mode::CsgDiff => {
            if i < left.len() {
                let mut k = i;
                while k < left.len()
                    invariant
                        i <= k <= left.len(),
                        result@ == head + left@.subrange(i as int, k as int),
                    decreases left.len() - k,
                {
                    result.push(left[k]);
                    k = k + 1;
                    assert(result@ =~= head + left@.subrange(i as int, k as int));
                }
            }
        },
        Mode::CsgUnion => {
            if i >= left.len() {
                let mut k = j;
                while k < right.len()
                    invariant
                        j <= k <= right.len(),
                        result@ == head + right@.subrange(j as int, k as int),
                    decreases right.len() - k,
                {
                    result.push(right[k]);
                    k = k + 1;
                    assert(result@ =~= head + right@.subrange(j as int, k as int));
                }
            } else {
                let mut k = i;
                while k < left.len()
                    invariant
                        i <= k <= left.len(),
                        result@ == head + left@.subrange(i as int, k as int),
                    decreases left.len() - k,
                {
                    result.push(left[k]);
                    k = k + 1;
                    assert(result@ =~= head + left@.subrange(i as int, k as int));
                }
            }
        },
        Mode::CsgInter => {},
    }
    assert(result@ =~= merged(mode, left@, right@));
    result
}

/// The first hit of the combined solid (as it stood in its operand's list),
/// or `None` when the combination has no hit.
pub fn csg_first_hit(mode: Mode, left: &Vec<HitRecord>, right: &Vec<HitRecord>) -> (result: Option<
    HitRecord,
>)
    ensures
        result == first_merged(mode, left@, right@),
        result matches Some(h) ==> (exists|a: int|
            0 <= a < left.len() && #[trigger] left@[a] == h) || (exists|b: int|
            0 <= b < right.len() && #[trigger] right@[b] == h),
{
    proof {
        lemma_first_hit_is_operand_hit(mode, left@, right@);
    }
    let mut result: Option<HitRecord> = None;
    let mut i: usize = 0;
    let mut j: usize = 0;
    while i < left.len() && j < right.len()
        invariant
            i <= left.len(),
            j <= right.len(),
            result is None ==> first_merged(mode, left@, right@) == first_from(
                mode,
                left@,
                right@,
                i as int,
                j as int,
            ),
            result is Some ==> result == first_merged(mode, left@, right@),
        decreases left.len() - i + right.len() - j,
    {
        let state = state_of(&left[i], &right[j]);
        match action(mode, state) {
            Action::CsgAEnter | Action::CsgAExit => {
                if result.is_none() {
                    result = Some(left[i]);
                }
                i = i + 1;
            },
            Action::CsgADrop => {
                i = i + 1;
            },
            Action::CsgBEnter | Action::CsgBExit => {
                if result.is_none() {
                    result = Some(right[j]);
                }
                j = j + 1;
            },
            Action::CsgBDrop => {
                j = j + 1;
            },
        }
    }
    match mode {
        Mode::CsgDiff => {
            if i < left.len() {
                if result.is_none() {
                    result = Some(left[i]);
                }
            }
        },
        Mode::CsgUnion => {
            if i >= left.len() {
                if result.is_none() && j < right.len() {
                    result = Some(right[j]);
                }
            } else {
                if result.is_none() && i < left.len() {
                    result = Some(left[i]);
                }
            }
        },
        Mode::CsgInter => {},
    }
    result
}

} // verus!

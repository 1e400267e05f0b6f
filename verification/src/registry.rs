//! The registry of wall edges: every edge waits under the cell of the
//! precision grid that holds its start point. An edge that is entered a
//! second time, in either direction, lies between two solid tiles; both
//! entries cancel and only the outline of the wall mass stays.

use crate::segment::{lemma_segment_eq_is_same_key, Segment};
use bevy::utils::hashbrown::{HashMap, HashSet};
use vstd::prelude::*;

verus! {

/// A cell of the precision grid: both coordinates in hundredths of a unit.
pub type Cell = (i32, i32);

/// A hash map from cells to lists of segments, kept by `hashbrown`.
#[verifier::external_body]
pub struct PointMap {
    map: HashMap<(i32, i32), Vec<Segment>>,
}

/// The list of segments that a `PointMap` holds under each cell.
pub uninterp spec fn point_map_entries(map: PointMap) -> Map<(i32, i32), Seq<Segment>>;

/// The entries of a map that holds nothing.
pub open spec fn no_entries() -> Map<Cell, Seq<Segment>> {
    Map::empty()
}

impl PointMap {
    /// `HashMap::new`: a map that holds nothing.
    #[verifier::external_body]
    pub(crate) fn new() -> (map: PointMap)
        ensures
            point_map_entries(map) == no_entries(),
    {
        PointMap { map: HashMap::new() }
    }

    /// `HashMap::remove`: takes the list under `key` out of the map and
    /// returns it, or returns `None` and leaves the map alone if there is
    /// none.
    #[verifier::external_body]
    pub(crate) fn remove(&mut self, key: (i32, i32)) -> (list: Option<Vec<Segment>>)
        ensures
            point_map_entries(*final(self)) == point_map_entries(*old(self)).remove(key),
            list is Some <==> point_map_entries(*old(self)).dom().contains(key),
            list matches Some(segments) ==> segments@ == point_map_entries(*old(self))[key],
    {
        self.map.remove(&key)
    }

    /// `HashMap::insert`: puts `segments` under `key`, in place of what was
    /// there.
    #[verifier::external_body]
    pub(crate) fn insert(&mut self, key: (i32, i32), segments: Vec<Segment>)
        ensures
            point_map_entries(*final(self)) == point_map_entries(*old(self)).insert(
                key,
                segments@,
            ),
    {
        self.map.insert(key, segments);
    }

    /// `HashMap::contains_key`: whether a list waits under `key`.
    #[verifier::external_body]
    pub(crate) fn contains_key(&self, key: (i32, i32)) -> (present: bool)
        ensures
            present == point_map_entries(*self).dom().contains(key),
    {
        self.map.contains_key(&key)
    }

    /// The first key that `HashMap::keys` hands out: some key of the map,
    /// no matter which, or `None` if the map holds nothing.
    #[verifier::external_body]
    pub(crate) fn any_key(&self) -> (key: Option<(i32, i32)>)
        ensures
            key matches Some(k) ==> point_map_entries(*self).dom().contains(k),
            key is None ==> point_map_entries(*self) == no_entries(),
    {
        self.map.keys().next().copied()
    }
}

/// What tells a segment apart: the cells of its two end points, the smaller
/// in front.
pub type SegmentKey = ((i32, i32), (i32, i32));

/// A hash set of segment keys, kept by `hashbrown`.
#[verifier::external_body]
pub struct SegmentSet {
    set: HashSet<((i32, i32), (i32, i32))>,
}

/// The keys that a `SegmentSet` holds.
pub uninterp spec fn segment_set_keys(set: SegmentSet) -> Set<((i32, i32), (i32, i32))>;

/// The keys of a set that holds nothing.
pub open spec fn no_keys() -> Set<SegmentKey> {
    Set::empty()
}

impl SegmentSet {
    /// `HashSet::new`: a set that holds nothing.
    #[verifier::external_body]
    pub(crate) fn new() -> (set: SegmentSet)
        ensures
            segment_set_keys(set) == no_keys(),
    {
        SegmentSet { set: HashSet::new() }
    }

    /// `HashSet::contains`: whether the set holds `key`.
    #[verifier::external_body]
    pub(crate) fn contains(&self, key: ((i32, i32), (i32, i32))) -> (present: bool)
        ensures
            present == segment_set_keys(*self).contains(key),
    {
        self.set.contains(&key)
    }

    /// `HashSet::insert`: the set holds `key` from now on.
    #[verifier::external_body]
    pub(crate) fn insert(&mut self, key: ((i32, i32), (i32, i32)))
        ensures
            segment_set_keys(*final(self)) == segment_set_keys(*old(self)).insert(key),
    {
        self.set.insert(key);
    }

    /// `HashSet::remove`: the set holds `key` no more.
    #[verifier::external_body]
    pub(crate) fn remove(&mut self, key: ((i32, i32), (i32, i32)))
        ensures
            segment_set_keys(*final(self)) == segment_set_keys(*old(self)).remove(key),
    {
        self.set.remove(&key);
    }
}

/// What is left of `list` after its entry `i` has been taken out and the last
/// entry moved into the gap.
pub open spec fn swap_removed<T>(list: Seq<T>, i: int) -> Seq<T> {
    list.update(i, list.last()).drop_last()
}

/// Place of the first segment of `list`, from place `from` on, that overlaps
/// `segment`; the length of `list` if there is none.
pub open spec fn first_overlap(list: Seq<Segment>, segment: Segment, from: int) -> int
    decreases list.len() - from,
{
    if from < 0 || from >= list.len() {
        list.len() as int
    } else if list[from].overlaps(segment) {
        from
    } else {
        first_overlap(list, segment, from + 1)
    }
}

/// The entries without entry number `i` of the list under `key`; a list
/// that runs empty leaves the map.
pub open spec fn without(
    entries: Map<Cell, Seq<Segment>>,
    key: Cell,
    i: int,
) -> Map<Cell, Seq<Segment>> {
    let rest = swap_removed(entries[key], i);
    if rest.len() == 0 {
        entries.remove(key)
    } else {
        entries.insert(key, rest)
    }
}

/// Whether the list under `key` holds a segment that overlaps `segment`.
pub open spec fn holds_overlap(
    entries: Map<Cell, Seq<Segment>>,
    key: Cell,
    segment: Segment,
) -> bool {
    entries.dom().contains(key) && first_overlap(entries[key], segment, 0) < entries[key].len()
}

/// The entries after `segment` has been entered. If a segment that overlaps
/// it waits under the cell of its end point, or else under the cell of its
/// start point, the first such segment leaves and `segment` is not added.
/// Otherwise `segment` is added at the end of the list under the cell of its
/// start point.
pub open spec fn entered(entries: Map<Cell, Seq<Segment>>, segment: Segment) -> Map<
    Cell,
    Seq<Segment>,
> {
    let start = segment.a.hashable();
    let end = segment.b.hashable();
    if holds_overlap(entries, end, segment) {
        without(entries, end, first_overlap(entries[end], segment, 0))
    } else if holds_overlap(entries, start, segment) {
        without(entries, start, first_overlap(entries[start], segment, 0))
    } else if entries.dom().contains(start) {
        entries.insert(start, entries[start].push(segment))
    } else {
        entries.insert(start, seq![segment])
    }
}

/// Every list is non-empty and holds only segments that start in its cell.
pub open spec fn registry_wf(entries: Map<Cell, Seq<Segment>>) -> bool {
    forall|key: Cell| #[trigger]
        entries.dom().contains(key) ==> entries[key].len() > 0 && forall|i: int|
            0 <= i < entries[key].len() ==> (#[trigger] entries[key][i]).a.hashable() == key
}

/// The number that stands for a cell when cells are counted through.
pub open spec fn cell_code(key: Cell) -> int {
    (key.0 + 0x8000_0000) * 0x1_0000_0000 + (key.1 + 0x8000_0000)
}

/// The cell that a number stands for.
pub open spec fn code_cell(code: int) -> Cell {
    ((code / 0x1_0000_0000 - 0x8000_0000) as i32, (code % 0x1_0000_0000 - 0x8000_0000) as i32)
}

/// Number of segments that wait under the cell with number `code`.
pub open spec fn waiting_at(entries: Map<Cell, Seq<Segment>>, code: int) -> nat {
    if entries.dom().contains(code_cell(code)) {
        entries[code_cell(code)].len()
    } else {
        0
    }
}

/// Number of segments that wait under the cells with numbers below `bound`.
pub open spec fn waiting_below(entries: Map<Cell, Seq<Segment>>, bound: nat) -> nat
    decreases bound,
{
    if bound == 0 {
        0
    } else {
        waiting_below(entries, (bound - 1) as nat) + waiting_at(entries, bound - 1)
    }
}

/// Number of segments in the registry.
pub open spec fn waiting(entries: Map<Cell, Seq<Segment>>) -> nat {
    waiting_below(entries, 0x1_0000_0000_0000_0000)
}

/// Every cell has a number of its own below two to the power of 64.
pub proof fn lemma_cell_code(key: Cell)
    ensures
        0 <= cell_code(key) < 0x1_0000_0000_0000_0000,
        code_cell(cell_code(key)) == key,
{
    let high: int = key.0 + 0x8000_0000;
    let low: int = key.1 + 0x8000_0000;
    vstd::arithmetic::div_mod::lemma_fundamental_div_mod_converse(
        cell_code(key),
        0x1_0000_0000,
        high,
        low,
    );
}

/// Every number below two to the power of 64 stands for a cell of its own.
pub proof fn lemma_code_cell(code: int)
    requires
        0 <= code < 0x1_0000_0000_0000_0000,
    ensures
        cell_code(code_cell(code)) == code,
{
    vstd::arithmetic::div_mod::lemma_fundamental_div_mod(code, 0x1_0000_0000);
    vstd::arithmetic::div_mod::lemma_mod_bound(code, 0x1_0000_0000);
    vstd::arithmetic::div_mod::lemma_div_pos_is_pos(code, 0x1_0000_0000);
    vstd::arithmetic::div_mod::lemma_multiply_divide_lt(code, 0x1_0000_0000, 0x1_0000_0000);
}

/// The two maps hold the same under every cell but `key`.
pub open spec fn differ_only_at(
    before: Map<Cell, Seq<Segment>>,
    after: Map<Cell, Seq<Segment>>,
    key: Cell,
) -> bool {
    forall|other: Cell|
        other != key ==> (#[trigger] before.dom().contains(other)) == after.dom().contains(other)
            && (before.dom().contains(other) ==> before[other] == after[other])
}

/// The first overlap from place `from` on lies at or behind `from`, and
/// where it lies inside the list the segment there overlaps.
pub proof fn lemma_first_overlap(list: Seq<Segment>, segment: Segment, from: int)
    requires
        0 <= from,
    ensures
        from <= first_overlap(list, segment, from) || first_overlap(list, segment, from)
            == list.len(),
        0 <= first_overlap(list, segment, from) <= list.len(),
        first_overlap(list, segment, from) < list.len() ==> list[first_overlap(
            list,
            segment,
            from,
        )].overlaps(segment),
        forall|i: int|
            from <= i < first_overlap(list, segment, from) ==> !(#[trigger] list[i]).overlaps(
                segment,
            ),
    decreases list.len() - from,
{
    if from < list.len() && !list[from].overlaps(segment) {
        lemma_first_overlap(list, segment, from + 1);
    }
}

/// Two maps that differ only under `key` hold the same number of segments
/// below `bound`, but for what they hold under `key`.
proof fn lemma_waiting_differs_at(
    before: Map<Cell, Seq<Segment>>,
    after: Map<Cell, Seq<Segment>>,
    key: Cell,
    bound: nat,
)
    requires
        differ_only_at(before, after, key),
        bound <= 0x1_0000_0000_0000_0000,
    ensures
        waiting_below(after, bound) + (if cell_code(key) < bound {
            waiting_at(before, cell_code(key))
        } else {
            0
        }) == waiting_below(before, bound) + (if cell_code(key) < bound {
            waiting_at(after, cell_code(key))
        } else {
            0
        }),
    decreases bound,
{
    if bound > 0 {
        lemma_waiting_differs_at(before, after, key, (bound - 1) as nat);
        lemma_cell_code(key);
        lemma_code_cell(bound - 1);
        if bound - 1 != cell_code(key) {
            assert(code_cell(bound - 1) != key);
            assert(before.dom().contains(code_cell(bound - 1)) == after.dom().contains(
                code_cell(bound - 1),
            ));
        }
    }
}

/// Taking one segment out of the registry leaves one segment fewer.
pub proof fn lemma_without_waiting(entries: Map<Cell, Seq<Segment>>, key: Cell, i: int)
    requires
        entries.dom().contains(key),
        0 <= i < entries[key].len(),
    ensures
        waiting(without(entries, key, i)) + 1 == waiting(entries),
{
    lemma_cell_code(key);
    lemma_waiting_differs_at(entries, without(entries, key, i), key, 0x1_0000_0000_0000_0000);
}

/// Taking a segment out of a well-formed registry leaves it well formed.
pub proof fn lemma_without_wf(entries: Map<Cell, Seq<Segment>>, key: Cell, i: int)
    requires
        registry_wf(entries),
        entries.dom().contains(key),
        0 <= i < entries[key].len(),
    ensures
        registry_wf(without(entries, key, i)),
{
    let after = without(entries, key, i);
    let rest = swap_removed(entries[key], i);
    assert forall|other: Cell| #[trigger] after.dom().contains(other) implies after[other].len() > 0
        && forall|j: int|
        0 <= j < after[other].len() ==> (#[trigger] after[other][j]).a.hashable() == other by {
        if other == key {
            assert forall|j: int| 0 <= j < rest.len() implies (#[trigger] rest[j]).a.hashable()
                == key by {
                if j == i {
                    assert(rest[j] == entries[key][entries[key].len() - 1]);
                } else {
                    assert(rest[j] == entries[key][j]);
                }
            }
        } else {
            assert(entries.dom().contains(other));
            assert(after[other] == entries[other]);
        }
    }
}

/// Entering a segment keeps the registry well formed.
pub proof fn lemma_entered_wf(entries: Map<Cell, Seq<Segment>>, segment: Segment)
    requires
        registry_wf(entries),
    ensures
        registry_wf(entered(entries, segment)),
{
    let start = segment.a.hashable();
    let end = segment.b.hashable();
    let after = entered(entries, segment);
    if holds_overlap(entries, end, segment) {
        lemma_first_overlap(entries[end], segment, 0);
        lemma_without_wf(entries, end, first_overlap(entries[end], segment, 0));
    } else if holds_overlap(entries, start, segment) {
        lemma_first_overlap(entries[start], segment, 0);
        lemma_without_wf(entries, start, first_overlap(entries[start], segment, 0));
    } else {
        assert forall|other: Cell| #[trigger] after.dom().contains(other) implies after[other].len()
            > 0 && forall|j: int|
            0 <= j < after[other].len() ==> (#[trigger] after[other][j]).a.hashable()
                == other by {
            if other == start {
                if entries.dom().contains(start) {
                    assert forall|j: int| 0 <= j < after[other].len() implies (
                    #[trigger] after[other][j]).a.hashable() == other by {
                        if j < entries[start].len() {
                            assert(after[other][j] == entries[start][j]);
                        }
                    }
                }
            } else {
                assert(entries.dom().contains(other));
                assert(after[other] == entries[other]);
            }
        }
    }
}

/// Entry number `i` of the list under `cell` exists.
pub open spec fn held_at(entries: Map<Cell, Seq<Segment>>, cell: Cell, i: int) -> bool {
    entries.dom().contains(cell) && 0 <= i < entries[cell].len()
}

/// The key of entry number `i` of the list under `cell`.
pub open spec fn key_at(entries: Map<Cell, Seq<Segment>>, cell: Cell, i: int) -> SegmentKey {
    entries[cell][i].key()
}

/// Some segment of the registry has the key `key`.
pub open spec fn holds_key(entries: Map<Cell, Seq<Segment>>, key: SegmentKey) -> bool {
    exists|cell: Cell, i: int|
        held_at(entries, cell, i) && #[trigger] key_at(entries, cell, i) == key
}

/// No two segments of the registry overlap: every key is held once at most.
pub open spec fn no_overlaps(entries: Map<Cell, Seq<Segment>>) -> bool {
    forall|c1: Cell, i1: int, c2: Cell, i2: int|
        held_at(entries, c1, i1) && held_at(entries, c2, i2) && #[trigger] key_at(entries, c1, i1)
            == #[trigger] key_at(entries, c2, i2) ==> c1 == c2 && i1 == i2
}

/// `keys` holds the key of every segment of the registry.
pub open spec fn keys_cover(keys: Set<SegmentKey>, entries: Map<Cell, Seq<Segment>>) -> bool {
    forall|cell: Cell, i: int|
        held_at(entries, cell, i) ==> keys.contains(#[trigger] key_at(entries, cell, i))
}

/// Where entry number `j` of the list under `other` stood before entry
/// number `i` of the list under `cell` was taken out: the last entry of that
/// list has moved into the gap, every other entry has stayed.
pub open spec fn place_before(
    entries: Map<Cell, Seq<Segment>>,
    cell: Cell,
    i: int,
    other: Cell,
    j: int,
) -> int {
    if other == cell && j == i {
        entries[cell].len() - 1
    } else {
        j
    }
}

/// Every entry that is left after one has been taken out stood in the
/// registry before, at another place than the one taken out.
pub proof fn lemma_without_place(
    entries: Map<Cell, Seq<Segment>>,
    cell: Cell,
    i: int,
    other: Cell,
    j: int,
)
    requires
        held_at(entries, cell, i),
        held_at(without(entries, cell, i), other, j),
    ensures
        held_at(entries, other, place_before(entries, cell, i, other, j)),
        without(entries, cell, i)[other][j] == entries[other][place_before(
            entries,
            cell,
            i,
            other,
            j,
        )],
        other != cell || place_before(entries, cell, i, other, j) != i,
        other == cell ==> j < entries[cell].len() - 1,
{
}

/// Taking a segment out of a registry without overlaps leaves its key held
/// by no segment, every other key where it was, and no overlaps.
pub proof fn lemma_without_keys(entries: Map<Cell, Seq<Segment>>, cell: Cell, i: int)
    requires
        held_at(entries, cell, i),
        no_overlaps(entries),
    ensures
        no_overlaps(without(entries, cell, i)),
        !holds_key(without(entries, cell, i), key_at(entries, cell, i)),
        forall|key: SegmentKey| #[trigger]
            holds_key(without(entries, cell, i), key) ==> holds_key(entries, key),
{
    let after = without(entries, cell, i);
    assert forall|c1: Cell, i1: int, c2: Cell, i2: int|
        held_at(after, c1, i1) && held_at(after, c2, i2) && #[trigger] key_at(after, c1, i1)
            == #[trigger] key_at(after, c2, i2) implies c1 == c2 && i1 == i2 by {
        lemma_without_place(entries, cell, i, c1, i1);
        lemma_without_place(entries, cell, i, c2, i2);
        let first = place_before(entries, cell, i, c1, i1);
        let second = place_before(entries, cell, i, c2, i2);
        assert(key_at(entries, c1, first) == key_at(entries, c2, second));
    }
    if holds_key(after, key_at(entries, cell, i)) {
        let (other, j) = choose|other: Cell, j: int|
            held_at(after, other, j) && #[trigger] key_at(after, other, j) == key_at(
                entries,
                cell,
                i,
            );
        lemma_without_place(entries, cell, i, other, j);
        let p = place_before(entries, cell, i, other, j);
        assert(key_at(entries, other, p) == key_at(entries, cell, i));
        assert(false);
    }
    assert forall|key: SegmentKey| #[trigger] holds_key(after, key) implies holds_key(
        entries,
        key,
    ) by {
        let (other, j) = choose|other: Cell, j: int|
            held_at(after, other, j) && #[trigger] key_at(after, other, j) == key;
        lemma_without_place(entries, cell, i, other, j);
        let p = place_before(entries, cell, i, other, j);
        assert(key_at(entries, other, p) == key);
    }
}

/// A set that holds the key of every segment still does so after a segment
/// has been taken out, also without the key of that segment if no other
/// segment overlapped it.
pub proof fn lemma_without_cover(
    keys: Set<SegmentKey>,
    entries: Map<Cell, Seq<Segment>>,
    cell: Cell,
    i: int,
)
    requires
        held_at(entries, cell, i),
        no_overlaps(entries),
        keys_cover(keys, entries),
    ensures
        keys_cover(keys, without(entries, cell, i)),
        keys_cover(keys.remove(key_at(entries, cell, i)), without(entries, cell, i)),
{
    let after = without(entries, cell, i);
    lemma_without_keys(entries, cell, i);
    assert forall|other: Cell, j: int| held_at(after, other, j) implies keys.contains(
        #[trigger] key_at(after, other, j),
    ) && key_at(after, other, j) != key_at(entries, cell, i) by {
        lemma_without_place(entries, cell, i, other, j);
        let p = place_before(entries, cell, i, other, j);
        assert(keys.contains(key_at(entries, other, p)));
        assert(holds_key(after, key_at(after, other, j)));
    }
}

/// A segment that overlaps nothing in the lists under the cells of its two
/// end points overlaps nothing in the registry: no segment has its key.
pub proof fn lemma_no_overlap_found(entries: Map<Cell, Seq<Segment>>, segment: Segment)
    requires
        registry_wf(entries),
        !holds_overlap(entries, segment.a.hashable(), segment),
        !holds_overlap(entries, segment.b.hashable(), segment),
    ensures
        !holds_key(entries, segment.key()),
{
    if holds_key(entries, segment.key()) {
        let (cell, i) = choose|cell: Cell, i: int|
            held_at(entries, cell, i) && #[trigger] key_at(entries, cell, i) == segment.key();
        let found = entries[cell][i];
        lemma_segment_eq_is_same_key(found, segment);
        assert(found.overlaps(segment));
        assert(found.a.hashable() == cell);
        assert(cell == segment.a.hashable() || cell == segment.b.hashable());
        lemma_first_overlap(entries[cell], segment, 0);
        assert(first_overlap(entries[cell], segment, 0) <= i);
        assert(false);
    }
}

/// A segment whose key no segment of the registry has overlaps nothing in
/// any list.
pub proof fn lemma_key_not_held(entries: Map<Cell, Seq<Segment>>, segment: Segment, cell: Cell)
    requires
        !holds_key(entries, segment.key()),
    ensures
        !holds_overlap(entries, cell, segment),
{
    if holds_overlap(entries, cell, segment) {
        lemma_first_overlap(entries[cell], segment, 0);
        let i = first_overlap(entries[cell], segment, 0);
        lemma_segment_eq_is_same_key(entries[cell][i], segment);
        assert(held_at(entries, cell, i) && key_at(entries, cell, i) == segment.key());
    }
}

/// Entering a segment into a registry without overlaps leaves it without
/// overlaps. If the segment cancelled another, no segment has its key
/// afterwards; if it did not, it is the only one to have it.
pub proof fn lemma_entered_keys(entries: Map<Cell, Seq<Segment>>, segment: Segment)
    requires
        registry_wf(entries),
        no_overlaps(entries),
    ensures
        no_overlaps(entered(entries, segment)),
        forall|key: SegmentKey| #[trigger]
            holds_key(entered(entries, segment), key) ==> holds_key(entries, key) || key
                == segment.key(),
        holds_key(entries, segment.key()) ==> !holds_key(entered(entries, segment), segment.key()),
{
    let start = segment.a.hashable();
    let end = segment.b.hashable();
    let after = entered(entries, segment);
    if holds_overlap(entries, end, segment) {
        let i = first_overlap(entries[end], segment, 0);
        lemma_first_overlap(entries[end], segment, 0);
        lemma_segment_eq_is_same_key(entries[end][i], segment);
        assert(key_at(entries, end, i) == segment.key());
        lemma_without_keys(entries, end, i);
    } else if holds_overlap(entries, start, segment) {
        let i = first_overlap(entries[start], segment, 0);
        lemma_first_overlap(entries[start], segment, 0);
        lemma_segment_eq_is_same_key(entries[start][i], segment);
        assert(key_at(entries, start, i) == segment.key());
        lemma_without_keys(entries, start, i);
    } else {
        lemma_no_overlap_found(entries, segment);
        let last: int = if entries.dom().contains(start) {
            entries[start].len() as int
        } else {
            0
        };
        // Every entry but the new one stood at the same place before.
        assert forall|cell: Cell, i: int| held_at(after, cell, i) implies (cell == start && i
            == last && #[trigger] key_at(after, cell, i) == segment.key()) || (held_at(
            entries,
            cell,
            i,
        ) && key_at(after, cell, i) == key_at(entries, cell, i)) by {
            if cell == start {
                if i < last {
                    assert(after[cell][i] == entries[cell][i]);
                }
            } else {
                assert(after[cell] == entries[cell]);
            }
        }
        assert forall|c1: Cell, i1: int, c2: Cell, i2: int|
            held_at(after, c1, i1) && held_at(after, c2, i2) && #[trigger] key_at(after, c1, i1)
                == #[trigger] key_at(after, c2, i2) implies c1 == c2 && i1 == i2 by {
            if held_at(entries, c1, i1) && key_at(after, c1, i1) == key_at(entries, c1, i1) {
                if held_at(entries, c2, i2) && key_at(after, c2, i2) == key_at(entries, c2, i2) {
                    assert(key_at(entries, c1, i1) == key_at(entries, c2, i2));
                } else {
                    assert(key_at(entries, c1, i1) == segment.key());
                }
            } else if held_at(entries, c2, i2) && key_at(after, c2, i2) == key_at(
                entries,
                c2,
                i2,
            ) {
                assert(key_at(entries, c2, i2) == segment.key());
            }
        }
        assert forall|key: SegmentKey| #[trigger] holds_key(after, key) implies holds_key(
            entries,
            key,
        ) || key == segment.key() by {
            let (cell, i) = choose|cell: Cell, i: int|
                held_at(after, cell, i) && #[trigger] key_at(after, cell, i) == key;
            if key != segment.key() {
                assert(held_at(entries, cell, i) && key_at(entries, cell, i) == key);
            }
        }
    }
}

/// A set that holds the key of every segment and the key of a segment
/// that is entered holds the key of every segment afterwards; if the segment
/// cancelled another, the set may drop its key.
pub proof fn lemma_entered_cover(
    keys: Set<SegmentKey>,
    entries: Map<Cell, Seq<Segment>>,
    segment: Segment,
)
    requires
        registry_wf(entries),
        no_overlaps(entries),
        keys_cover(keys, entries),
    ensures
        keys_cover(keys.insert(segment.key()), entered(entries, segment)),
        holds_key(entries, segment.key()) ==> keys_cover(
            keys.remove(segment.key()),
            entered(entries, segment),
        ),
{
    let after = entered(entries, segment);
    lemma_entered_keys(entries, segment);
    assert forall|cell: Cell, i: int| held_at(after, cell, i) implies keys.insert(
        segment.key(),
    ).contains(#[trigger] key_at(after, cell, i)) && (holds_key(entries, segment.key())
        ==> keys.remove(segment.key()).contains(key_at(after, cell, i))) by {
        let key = key_at(after, cell, i);
        assert(holds_key(after, key));
        if key != segment.key() {
            let (c, j) = choose|c: Cell, j: int|
                held_at(entries, c, j) && #[trigger] key_at(entries, c, j) == key;
            assert(keys.contains(key_at(entries, c, j)));
        }
    }
}

/// The first overlap lies at or before every place that holds a segment
/// that overlaps.
pub proof fn lemma_first_overlap_least(list: Seq<Segment>, segment: Segment, from: int, i: int)
    requires
        0 <= from <= i < list.len(),
        list[i].overlaps(segment),
    ensures
        first_overlap(list, segment, from) <= i,
    decreases i - from,
{
    if !list[from].overlaps(segment) {
        lemma_first_overlap_least(list, segment, from + 1, i);
    }
}

/// An edge shared by two tiles leaves no trace. When a segment is entered
/// that overlaps nothing, and then a segment that overlaps it, in the same
/// direction or in the other, the registry is what it was before both.
pub proof fn lemma_second_entry_cancels(
    entries: Map<Cell, Seq<Segment>>,
    first: Segment,
    second: Segment,
)
    requires
        registry_wf(entries),
        !holds_key(entries, first.key()),
        second.overlaps(first),
    ensures
        entered(entered(entries, first), second) == entries,
{
    let start = first.a.hashable();
    lemma_key_not_held(entries, first, first.a.hashable());
    lemma_key_not_held(entries, first, first.b.hashable());
    let once = entered(entries, first);
    let before: Seq<Segment> = if entries.dom().contains(start) {
        entries[start]
    } else {
        Seq::empty()
    };
    assert(once[start] =~= before.push(first));
    lemma_segment_eq_is_same_key(second, first);
    // Nothing but the new segment overlaps the second one.
    assert forall|cell: Cell, i: int| held_at(entries, cell, i) implies !(
    #[trigger] entries[cell][i]).overlaps(second) by {
        lemma_segment_eq_is_same_key(entries[cell][i], second);
        assert(key_at(entries, cell, i) == entries[cell][i].key());
    }
    let last = before.len() as int;
    lemma_first_overlap(once[start], second, 0);
    lemma_first_overlap_least(once[start], second, 0, last);
    assert(first.overlaps(second));
    let found = first_overlap(once[start], second, 0);
    if found < last {
        assert(once[start][found] == entries[start][found]);
        assert(held_at(entries, start, found));
    }
    assert(found == last);
    assert(swap_removed(once[start], last) =~= before);
    assert(without(once, start, last) =~= entries);
    let end = second.b.hashable();
    if end != start {
        // The second segment runs the same way as the first: nothing
        // under the cell of its end overlaps it.
        if holds_overlap(once, end, second) {
            lemma_first_overlap(once[end], second, 0);
            let at = first_overlap(once[end], second, 0);
            assert(once[end] == entries[end]);
            assert(held_at(entries, end, at));
        }
        assert(second.a.hashable() == start);
    }
}

/// Where entry number `j` of the list under `other` stands after entry
/// number `i` of the list under `cell` has been taken out: the last entry of
/// that list moves into the gap, every other entry stays.
pub open spec fn place_after(
    entries: Map<Cell, Seq<Segment>>,
    cell: Cell,
    i: int,
    other: Cell,
    j: int,
) -> int {
    if other == cell && j == entries[cell].len() - 1 {
        i
    } else {
        j
    }
}

/// Every entry but the one taken out is still in the registry afterwards.
pub proof fn lemma_without_keeps(
    entries: Map<Cell, Seq<Segment>>,
    cell: Cell,
    i: int,
    other: Cell,
    j: int,
)
    requires
        held_at(entries, cell, i),
        held_at(entries, other, j),
        other != cell || j != i,
    ensures
        held_at(without(entries, cell, i), other, place_after(entries, cell, i, other, j)),
        without(entries, cell, i)[other][place_after(entries, cell, i, other, j)]
            == entries[other][j],
        holds_key(without(entries, cell, i), key_at(entries, other, j)),
{
    let after = without(entries, cell, i);
    let at = place_after(entries, cell, i, other, j);
    assert(held_at(after, other, at));
    assert(after[other][at] == entries[other][j]);
    assert(key_at(after, other, at) == key_at(entries, other, j));
}

} // verus!

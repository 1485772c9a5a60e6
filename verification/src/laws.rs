//! Properties of compaction and rendering.
//!
//! Compaction is exact: expanding the emitted ranges reconstructs the input,
//! in order. It is also maximal: no two adjacent ranges could be merged
//! without breaking contiguity or value equality. Rendering is a function of
//! the ranges alone, so identical inputs yield byte-identical tables.

use crate::char_map::render_assoc;
use crate::char_set::render_members;
use crate::compact::{
    compact_assoc, compact_idx, compact_idx_from, compact_members, keys_sorted, members_sorted,
};
use crate::value::ValueFormatter;
use vstd::prelude::*;

verus! {

/// How many codepoints an inclusive range `[a, b]` covers.
pub open spec fn range_size(a: char, b: char) -> nat {
    if (a as u32) <= (b as u32) {
        ((b as u32) - (a as u32) + 1) as nat
    } else {
        0
    }
}

/// The codepoint–value pairs covered by one range: every codepoint from low
/// to high, each paired with the range's value.
pub open spec fn expand_range<M>(r: (char, char, M)) -> Seq<(int, M)> {
    Seq::new(range_size(r.0, r.1), |k: int| ((r.0 as u32) as int + k, r.2))
}

/// The codepoint–value pairs covered by a sequence of ranges, in order.
pub open spec fn expand_ranges<M>(ranges: Seq<(char, char, M)>) -> Seq<(int, M)>
    decreases ranges.len(),
{
    if ranges.len() == 0 {
        Seq::empty()
    } else {
        expand_range(ranges[0]) + expand_ranges(ranges.drop_first())
    }
}

/// The entries of an association as codepoint–value pairs.
pub open spec fn entry_points<M>(s: Seq<(char, M)>) -> Seq<(int, M)> {
    s.map_values(|e: (char, M)| ((e.0 as u32) as int, e.1))
}

/// Duple ranges lifted to triples carrying the unit value.
pub open spec fn lift_members(ranges: Seq<(char, char)>) -> Seq<(char, char, ())> {
    ranges.map_values(|r: (char, char)| (r.0, r.1, ()))
}

/// The structure of the scanner's output, by induction over the scan: the
/// emitted ranges stand in ascending order with a gap or a value change at
/// every boundary, and together they cover exactly the entries from the
/// current group start on.
proof fn lemma_compact_from_props<M>(s: Seq<(char, M)>, i: int, low: char, high: char, gs: int)
    requires
        keys_sorted(s),
        0 <= gs < i <= s.len(),
        low == s[gs].0,
        high == s[i - 1].0,
        forall|k: int|
            gs <= k < i ==> ((#[trigger] s[k]).0 as u32) == s[gs].0 as u32 + (k - gs)
                && s[k].1 == s[gs].1,
    ensures
        ({
            let r = compact_idx_from(s, i, low, high, gs);
            &&& r.len() >= 1
            &&& r[0].0 == low && r[0].2 == gs
            &&& forall|j: int|
                0 <= j < r.len() ==> 0 <= (#[trigger] r[j]).2 < s.len() && r[j].0 == s[r[j].2].0
                    && ((r[j].0 as u32) <= (r[j].1 as u32))
            &&& forall|j: int|
                0 <= j < r.len() - 1 ==> ((#[trigger] r[j]).1 as u32) < (r[j + 1].0 as u32) && ((
                r[j + 1].0 as u32) > (r[j].1 as u32) + 1 || s[r[j + 1].2].1 != s[r[j].2].1)
            &&& expand_ranges(r.map_values(|t: (char, char, int)| (t.0, t.1, s[t.2].1)))
                == entry_points(s).skip(gs)
        }),
    decreases s.len() - i,
{
    let r = compact_idx_from(s, i, low, high, gs);
    let ep = entry_points(s);
    assert(forall|k: int| 0 <= k < s.len() ==> (#[trigger] ep[k]) == ((s[k].0 as u32) as int, s[k].1));
    if i >= s.len() {
        assert(r =~= seq![(low, high, gs)]);
        let rm = r.map_values(|t: (char, char, int)| (t.0, t.1, s[t.2].1));
        assert(rm =~= seq![(low, high, s[gs].1)]);
        assert(rm.drop_first() =~= Seq::<(char, char, M)>::empty());
        assert(expand_ranges(rm.drop_first()) == Seq::<(int, M)>::empty());
        assert((high as u32) == (low as u32) + (i - 1 - gs));
        assert(range_size(low, high) == i - gs);
        assert(expand_range((low, high, s[gs].1)) =~= ep.skip(gs));
        assert(expand_ranges(rm) =~= ep.skip(gs));
    } else if s[i].1 == s[gs].1 && s[i].0 as u32 == high as u32 + 1 {
        lemma_compact_from_props(s, i + 1, low, s[i].0, gs);
    } else {
        lemma_compact_from_props(s, i + 1, s[i].0, s[i].0, i);
        let rest = compact_idx_from(s, i + 1, s[i].0, s[i].0, i);
        assert(r == seq![(low, high, gs)] + rest);
        assert(r[0] == (low, high, gs));
        assert(r[1] == rest[0]);
        assert(rest[0].0 == s[i].0 && rest[0].2 == i);
        assert((high as u32) == (low as u32) + (i - 1 - gs));
        assert((s[i - 1].0 as u32) < (s[i].0 as u32));
        assert forall|j: int|
            0 <= j < r.len() implies 0 <= (#[trigger] r[j]).2 < s.len() && r[j].0 == s[r[j].2].0
                && ((r[j].0 as u32) <= (r[j].1 as u32)) by {
            if j > 0 {
                assert(r[j] == rest[j - 1]);
            }
        }
        assert forall|j: int|
            0 <= j < r.len() - 1 implies ((#[trigger] r[j]).1 as u32) < (r[j + 1].0 as u32) && ((
            r[j + 1].0 as u32) > (r[j].1 as u32) + 1 || s[r[j + 1].2].1 != s[r[j].2].1) by {
            if j == 0 {
                assert(r[1] == rest[0]);
                assert((r[0].1 as u32) == (high as u32));
                if s[r[1].2].1 == s[r[0].2].1 {
                    assert((s[i].0 as u32) != (high as u32) + 1);
                    assert((s[i].0 as u32) > (high as u32));
                }
            } else {
                assert(r[j] == rest[j - 1] && r[j + 1] == rest[j]);
            }
        }
        let rm = r.map_values(|t: (char, char, int)| (t.0, t.1, s[t.2].1));
        let restm = rest.map_values(|t: (char, char, int)| (t.0, t.1, s[t.2].1));
        assert(rm[0] == (low, high, s[gs].1));
        assert(rm.drop_first() =~= restm);
        assert(expand_ranges(rm) == expand_range((low, high, s[gs].1)) + expand_ranges(restm));
        assert(range_size(low, high) == i - gs);
        assert(expand_range((low, high, s[gs].1)) =~= ep.subrange(gs, i));
        assert(ep.skip(gs) =~= ep.subrange(gs, i) + ep.skip(i));
        assert(expand_ranges(rm) =~= ep.skip(gs));
    }
}

/// Round trip for the map variant: expanding every compacted range back into
/// codepoint–value pairs reconstructs the ordered association exactly, in
/// the same order.
pub proof fn lemma_compact_round_trip<M>(s: Seq<(char, M)>)
    requires
        keys_sorted(s),
    ensures
        expand_ranges(compact_assoc(s)) == entry_points(s),
{
    if s.len() == 0 {
        assert(compact_assoc(s) =~= Seq::<(char, char, M)>::empty());
        assert(expand_ranges(compact_assoc(s)) =~= entry_points(s));
    } else {
        lemma_compact_from_props(s, 1, s[0].0, s[0].0, 0);
        assert(compact_assoc(s) == compact_idx(s).map_values(
            |t: (char, char, int)| (t.0, t.1, s[t.2].1),
        ));
        assert(entry_points(s).skip(0) =~= entry_points(s));
    }
}

/// Minimality and order for the map variant: ranges are well formed and
/// strictly ascending, and no two adjacent ranges could be merged into one
/// without violating contiguity (a gap stands between them) or value
/// equality (their values differ).
pub proof fn lemma_compact_minimal<M>(s: Seq<(char, M)>)
    requires
        keys_sorted(s),
    ensures
        ({
            let r = compact_assoc(s);
            &&& forall|j: int|
                0 <= j < r.len() ==> ((#[trigger] r[j]).0 as u32) <= (r[j].1 as u32)
            &&& forall|j: int|
                0 <= j < r.len() - 1 ==> ((#[trigger] r[j]).1 as u32) < (r[j + 1].0 as u32)
            &&& forall|j: int|
                0 <= j < r.len() - 1 ==> ((#[trigger] r[j + 1]).0 as u32) > (r[j].1 as u32) + 1
                    || r[j + 1].2 != r[j].2
        }),
{
    let r = compact_assoc(s);
    if s.len() == 0 {
        assert(r =~= Seq::<(char, char, M)>::empty());
    } else {
        lemma_compact_from_props(s, 1, s[0].0, s[0].0, 0);
        let c = compact_idx(s);
        assert(forall|j: int| 0 <= j < c.len() ==> (#[trigger] r[j]) == (c[j].0, c[j].1, s[c[j].2].1));
    }
}

/// Round trip for the set variant: expanding every compacted range of a
/// membership set (each range carrying the unit value) reconstructs the
/// ordered members exactly, in the same order.
pub proof fn lemma_compact_members_round_trip(s: Seq<char>)
    requires
        members_sorted(s),
    ensures
        expand_ranges(lift_members(compact_members(s))) == entry_points(
            s.map_values(|c: char| (c, ())),
        ),
{
    let t = s.map_values(|c: char| (c, ()));
    crate::compact::lemma_keys_sorted_iff(t);
    assert(crate::compact::entry_keys(t) =~= s);
    lemma_compact_round_trip(t);
    assert(lift_members(compact_members(s)) =~= compact_assoc(t));
}

/// Minimality for the set variant: ranges are well formed and strictly
/// ascending, and a gap of more than one codepoint stands between any two
/// adjacent ranges, so none could be merged.
pub proof fn lemma_compact_members_minimal(s: Seq<char>)
    requires
        members_sorted(s),
    ensures
        ({
            let r = compact_members(s);
            &&& forall|j: int|
                0 <= j < r.len() ==> ((#[trigger] r[j]).0 as u32) <= (r[j].1 as u32)
            &&& forall|j: int|
                0 <= j < r.len() - 1 ==> ((#[trigger] r[j + 1]).0 as u32) > (r[j].1 as u32) + 1
        }),
{
    let t = s.map_values(|c: char| (c, ()));
    crate::compact::lemma_keys_sorted_iff(t);
    assert(crate::compact::entry_keys(t) =~= s);
    lemma_compact_minimal(t);
    let ra = compact_assoc(t);
    let r = compact_members(s);
    assert(forall|j: int| 0 <= j < r.len() ==> (#[trigger] r[j]) == (ra[j].0, ra[j].1));
    assert forall|j: int|
        0 <= j < r.len() - 1 implies ((#[trigger] r[j + 1]).0 as u32) > (r[j].1 as u32) + 1 by {
        assert(ra[j].2 == ra[j + 1].2);
    }
}

/// Compacting an empty association yields no ranges, and its table renders
/// as exactly `&[]`.
pub proof fn lemma_empty_assoc_table<V: View, F: ValueFormatter<V>>(f: F)
    ensures
        compact_assoc(Seq::<(char, V::V)>::empty()) == Seq::<(char, char, V::V)>::empty(),
        render_assoc(compact_assoc(Seq::<(char, V::V)>::empty()), f) == "&[]"@,
{
    assert(compact_assoc(Seq::<(char, V::V)>::empty()) =~= Seq::<(char, char, V::V)>::empty());
}

/// Compacting an empty set yields no ranges, and its table renders as
/// exactly `&[]`.
pub proof fn lemma_empty_members_table()
    ensures
        compact_members(Seq::<char>::empty()) == Seq::<(char, char)>::empty(),
        render_members(compact_members(Seq::<char>::empty())) == "&[]"@,
{
    assert(compact_members(Seq::<char>::empty()) =~= Seq::<(char, char)>::empty());
}

/// Rendering is a function of the ranges and the formatter alone: the same
/// range sequence renders twice to byte-identical text.
pub proof fn lemma_render_assoc_stable<V: View, F: ValueFormatter<V>>(
    r1: Seq<(char, char, V::V)>,
    r2: Seq<(char, char, V::V)>,
    f: F,
)
    requires
        r1 == r2,
    ensures
        render_assoc(r1, f) == render_assoc(r2, f),
{
}

/// Rendering a set table is a function of the ranges alone: the same range
/// sequence renders twice to byte-identical text.
pub proof fn lemma_render_members_stable(r1: Seq<(char, char)>, r2: Seq<(char, char)>)
    requires
        r1 == r2,
    ensures
        render_members(r1) == render_members(r2),
{
}

} // verus!

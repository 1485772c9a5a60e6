//! Range compaction.
//!
//! Given an ordered association of codepoints with values (or mere
//! membership), the scanner merges runs of consecutive codepoints that share
//! one value into inclusive ranges. A range is extended only when the next
//! codepoint is exactly one past the range's high bound and carries an equal
//! value; a gap or a value change closes the range, so equal values are never
//! merged across a gap.

use crate::value::ValueEq;
use vstd::prelude::*;

verus! {

/// The abstract entries of an association: each executable entry replaced by
/// its codepoint and the view of its value.
pub open spec fn entry_views<V: View>(s: Seq<(char, V)>) -> Seq<(char, V::V)> {
    s.map_values(|e: (char, V)| (e.0, e.1@))
}

/// Keys strictly ascending by codepoint: the iteration order of an ordered
/// association with no duplicate keys.
pub open spec fn keys_sorted<M>(s: Seq<(char, M)>) -> bool {
    forall|i: int, j: int|
        0 <= i < j < s.len() ==> ((#[trigger] s[i]).0 as u32) < ((#[trigger] s[j]).0 as u32)
}

/// The ranges emitted while scanning `s` from entry `i` on, with an open
/// range `[low, high]` whose first entry stands at index `gs`. The open range
/// is extended while the next entry continues it (equal value, codepoint one
/// past `high`); otherwise it is closed and a new one opened.
pub open spec fn compact_idx_from<M>(
    s: Seq<(char, M)>,
    i: int,
    low: char,
    high: char,
    gs: int,
) -> Seq<(char, char, int)>
    decreases s.len() - i,
{
    if i < 0 || i >= s.len() {
        seq![(low, high, gs)]
    } else if s[i].1 == s[gs].1 && s[i].0 as u32 == high as u32 + 1 {
        compact_idx_from(s, i + 1, low, s[i].0, gs)
    } else {
        seq![(low, high, gs)] + compact_idx_from(s, i + 1, s[i].0, s[i].0, i)
    }
}

/// The compacted ranges of `s`, each as `(low, high, index of first entry)`.
pub open spec fn compact_idx<M>(s: Seq<(char, M)>) -> Seq<(char, char, int)> {
    if s.len() == 0 {
        Seq::empty()
    } else {
        compact_idx_from(s, 1, s[0].0, s[0].0, 0)
    }
}

/// The compacted ranges of `s`, each as `(low, high, value)` where the value
/// is the one shared by every codepoint of the range.
pub open spec fn compact_assoc<M>(s: Seq<(char, M)>) -> Seq<(char, char, M)> {
    compact_idx(s).map_values(|r: (char, char, int)| (r.0, r.1, s[r.2].1))
}

/// The codepoints of a sequence of entries.
pub open spec fn entry_keys<M>(s: Seq<(char, M)>) -> Seq<char> {
    s.map_values(|e: (char, M)| e.0)
}

/// Codepoints strictly ascending: the iteration order of an ordered set with
/// no duplicates.
pub open spec fn members_sorted(s: Seq<char>) -> bool {
    forall|i: int, j: int|
        0 <= i < j < s.len() ==> ((#[trigger] s[i]) as u32) < ((#[trigger] s[j]) as u32)
}

/// Entries are sorted by key exactly when their codepoints are sorted.
pub proof fn lemma_keys_sorted_iff<M>(s: Seq<(char, M)>)
    ensures
        keys_sorted(s) <==> members_sorted(entry_keys(s)),
{
    let t = entry_keys(s);
    assert(forall|k: int| 0 <= k < s.len() ==> (#[trigger] t[k]) == s[k].0);
    if keys_sorted(s) {
        assert forall|i: int, j: int| 0 <= i < j < t.len() implies ((#[trigger] t[i]) as u32) < (
        (#[trigger] t[j]) as u32) by {
            assert((s[i].0 as u32) < (s[j].0 as u32));
        }
    }
    if members_sorted(t) {
        assert forall|i: int, j: int| 0 <= i < j < s.len() implies (((#[trigger] s[i]).0 as u32)
            < ((#[trigger] s[j]).0 as u32)) by {
            assert((t[i] as u32) < (t[j] as u32));
        }
    }
}

/// The compacted ranges of a plain membership set, each as `(low, high)`.
pub open spec fn compact_members(s: Seq<char>) -> Seq<(char, char)> {
    compact_idx(s.map_values(|c: char| (c, ()))).map_values(|r: (char, char, int)| (r.0, r.1))
}

/// The executable ranges `(low, high, group start index)` replaced by their
/// abstract counterparts.
pub open spec fn range_views(r: Seq<(char, char, usize)>) -> Seq<(char, char, int)> {
    r.map_values(|t: (char, char, usize)| (t.0, t.1, t.2 as int))
}

/// Scans a sorted association and produces its compacted ranges, each with
/// the index of the entry that opened it.
pub fn compact_entries<V: View + ValueEq>(entries: &Vec<(char, V)>) -> (r: Vec<
    (char, char, usize),
>)
    requires
        keys_sorted(entry_views(entries@)),
    ensures
        range_views(r@) == compact_idx(entry_views(entries@)),
        forall|j: int| 0 <= j < r@.len() ==> (#[trigger] r@[j]).2 < entries@.len(),
{
    let ghost m = entry_views(entries@);
    let mut r: Vec<(char, char, usize)> = Vec::new();
    if entries.len() == 0 {
        proof {
            assert(range_views(r@) =~= compact_idx(m));
        }
        return r;
    }
    let mut low = entries[0].0;
    let mut high = low;
    let mut gs: usize = 0;
    let mut i: usize = 1;
    proof {
        assert(m[0] == (entries@[0].0, entries@[0].1@));
    }
    while i < entries.len()
        invariant
            keys_sorted(m),
            m == entry_views(entries@),
            m.len() == entries@.len(),
            1 <= i <= m.len(),
            0 <= gs < i,
            low == m[gs as int].0,
            high == m[i - 1].0,
            forall|k: int|
                gs <= k < i ==> ((#[trigger] m[k]).0 as u32) == m[gs as int].0 as u32 + (k - gs)
                    && m[k].1 == m[gs as int].1,
            compact_idx(m) == range_views(r@) + compact_idx_from(
                m,
                i as int,
                low,
                high,
                gs as int,
            ),
            forall|j: int| 0 <= j < r@.len() ==> (#[trigger] r@[j]).2 < m.len(),
        decreases m.len() - i,
    {
        let c = entries[i].0;
        proof {
            assert(m[i as int] == (entries@[i as int].0, entries@[i as int].1@));
            assert(m[gs as int] == (entries@[gs as int].0, entries@[gs as int].1@));
        }
        let same = entries[i].1.value_eq(&entries[gs].1);
        if same && c as u32 <= high as u32 + 1 {
            proof {
                assert((m[i as int].0 as u32) > (m[i - 1].0 as u32));
                assert(m[i as int].0 as u32 == high as u32 + 1);
            }
            high = c;
        } else {
            proof {
                assert((m[i as int].0 as u32) > (m[i - 1].0 as u32));
                assert(!(m[i as int].1 == m[gs as int].1 && m[i as int].0 as u32 == high as u32
                    + 1));
            }
            r.push((low, high, gs));
            proof {
                assert(range_views(r@) =~= range_views(r@.drop_last()) + seq![
                    (low, high, gs as int),
                ]);
                assert(range_views(r@.drop_last()) + (seq![(low, high, gs as int)]
                    + compact_idx_from(m, i + 1, m[i as int].0, m[i as int].0, i as int)) =~= (
                range_views(r@.drop_last()) + seq![(low, high, gs as int)]) + compact_idx_from(
                    m,
                    i + 1,
                    m[i as int].0,
                    m[i as int].0,
                    i as int,
                ));
            }
            low = c;
            high = c;
            gs = i;
        }
        i = i + 1;
    }
    r.push((low, high, gs));
    proof {
        assert(compact_idx_from(m, i as int, low, high, gs as int) == seq![
            (low, high, gs as int),
        ]);
        assert(range_views(r@) =~= range_views(r@.drop_last()) + seq![(low, high, gs as int)]);
    }
    r
}

} // verus!

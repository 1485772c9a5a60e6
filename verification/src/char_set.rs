//! A set of character codepoints, and its rendering as a binary search table.
//!
//! The table text is an array literal of `('low', 'high')` duples, one per
//! compacted range: membership is the map variant with the value left out.

use crate::char_map::{insert_entry, lemma_codepoint_map_view, CodepointMap};
use crate::compact::{compact_entries, compact_idx, compact_members, entry_keys, entry_views, lemma_keys_sorted_iff, members_sorted, range_views};
use crate::escape::{escape_unicode, escape_unicode_seq};
use crate::value::NoValue;
use vstd::prelude::*;
use vstd::string::StringExecFns;

verus! {

/// One rendered line of the set table: the two escaped boundaries of a
/// range, indented and followed by a comma and newline.
pub open spec fn duple_line(a: char, b: char) -> Seq<char> {
    "    ('"@ + escape_unicode_seq(a) + "', '"@ + escape_unicode_seq(b) + "'),\n"@
}

/// The lines of a set table: one [`duple_line`] per range, in order.
pub open spec fn render_members_body(ranges: Seq<(char, char)>) -> Seq<char>
    decreases ranges.len(),
{
    if ranges.len() == 0 {
        Seq::empty()
    } else {
        duple_line(ranges[0].0, ranges[0].1) + render_members_body(ranges.drop_first())
    }
}

/// The whole set table: the lines wrapped in an array-literal envelope, or
/// exactly `&[]` when there are no ranges.
pub open spec fn render_members(ranges: Seq<(char, char)>) -> Seq<char> {
    if ranges.len() == 0 {
        "&[]"@
    } else {
        "&[\n"@ + render_members_body(ranges) + "]"@
    }
}

/// Appending one range to the table appends one line to its body.
pub proof fn lemma_render_members_body_push(ranges: Seq<(char, char)>, r: (char, char))
    ensures
        render_members_body(ranges.push(r)) == render_members_body(ranges) + duple_line(
            r.0,
            r.1,
        ),
    decreases ranges.len(),
{
    if ranges.len() == 0 {
        assert(ranges.push(r)[0] == r);
        assert(ranges.push(r).drop_first() =~= ranges);
        assert(render_members_body(ranges) == Seq::<char>::empty());
        assert(render_members_body(ranges.push(r)) == duple_line(r.0, r.1)
            + render_members_body(ranges));
        assert(render_members_body(ranges.push(r)) =~= render_members_body(ranges) + duple_line(
            r.0,
            r.1,
        ));
    } else {
        lemma_render_members_body_push(ranges.drop_first(), r);
        assert(ranges.push(r).drop_first() =~= ranges.drop_first().push(r));
        assert(ranges.push(r)[0] == ranges[0]);
        assert(render_members_body(ranges.push(r)) =~= render_members_body(ranges) + duple_line(
            r.0,
            r.1,
        ));
    }
}

/// Appends one `('low', 'high')` line to the table text under construction.
pub fn append_duple(out: &mut String, a: char, b: char)
    ensures
        final(out)@ == old(out)@ + duple_line(a, b),
{
    out.append("    ('");
    let ea = escape_unicode(a);
    out.append(ea.as_str());
    out.append("', '");
    let eb = escape_unicode(b);
    out.append(eb.as_str());
    out.append("'),\n");
    proof {
        assert(out@ =~= old(out)@ + duple_line(a, b));
    }
}

/// Inserting into an ordered membership set: codepoints below `key` keep
/// their place, an already-present codepoint leaves the set unchanged, and
/// otherwise `key` stands before the first larger codepoint.
pub open spec fn insert_member(s: Seq<char>, key: char) -> Seq<char>
    decreases s.len(),
{
    if s.len() == 0 {
        seq![key]
    } else if (s[0] as u32) < (key as u32) {
        seq![s[0]] + insert_member(s.drop_first(), key)
    } else if s[0] as u32 == key as u32 {
        seq![key] + s.drop_first()
    } else {
        seq![key] + s
    }
}

/// Inserting an entry and then reading the codepoints is inserting the
/// codepoint among the keys.
proof fn lemma_insert_entry_keys(s: Seq<(char, ())>, key: char)
    ensures
        entry_keys(insert_entry(s, key, ())) == insert_member(entry_keys(s), key),
    decreases s.len(),
{
    let t = entry_keys(s);
    if s.len() == 0 {
        assert(entry_keys(insert_entry(s, key, ())) =~= insert_member(t, key));
    } else {
        assert(t[0] == s[0].0);
        lemma_insert_entry_keys(s.drop_first(), key);
        assert(entry_keys(s.drop_first()) =~= t.drop_first());
        if (s[0].0 as u32) < (key as u32) {
            assert(entry_keys(seq![s[0]] + insert_entry(s.drop_first(), key, ())) =~= seq![
                s[0].0,
            ] + entry_keys(insert_entry(s.drop_first(), key, ())));
            assert(entry_keys(insert_entry(s, key, ())) =~= insert_member(t, key));
        } else if s[0].0 as u32 == key as u32 {
            assert(entry_keys(insert_entry(s, key, ())) =~= insert_member(t, key));
        } else {
            assert(entry_keys(insert_entry(s, key, ())) =~= insert_member(t, key));
        }
    }
}

/// An ordered codepoint set: naive sorted storage that compacts to a binary
/// search table through [`CharSet`].
pub struct CodepointSet {
    pub(crate) inner: CodepointMap<NoValue>,
}

impl View for CodepointSet {
    type V = Seq<char>;

    closed spec fn view(&self) -> Seq<char> {
        entry_keys(self.inner@)
    }
}

impl CodepointSet {
    /// Whether the codepoints are strictly ascending, as every value built
    /// through `new` and `insert` is.
    pub open spec fn wf(&self) -> bool {
        members_sorted(self@)
    }

    /// The empty set.
    pub fn new() -> (r: CodepointSet)
        ensures
            r.wf(),
            r@ == Seq::<char>::empty(),
    {
        let r = CodepointSet { inner: CodepointMap::new() };
        proof {
            assert(r@ =~= Seq::<char>::empty());
        }
        r
    }

    /// Inserts `key`, keeping the codepoints sorted; inserting a codepoint
    /// already present leaves the set unchanged.
    pub fn insert(&mut self, key: char)
        requires
            old(self).wf(),
        ensures
            final(self).wf(),
            final(self)@ == insert_member(old(self)@, key),
    {
        proof {
            lemma_keys_sorted_iff(self.inner@);
        }
        self.inner.insert(key, NoValue);
        proof {
            lemma_insert_entry_keys(old(self).inner@, key);
            lemma_keys_sorted_iff(self.inner@);
        }
    }

    /// Builds a set from codepoints already sorted strictly ascending;
    /// `None` when the precondition does not hold, so that a malformed input
    /// aborts generation loudly instead of yielding a wrong table.
    pub fn from_sorted_members(members: Vec<char>) -> (r: Option<CodepointSet>)
        ensures
            r is Some <==> members_sorted(members@),
            r matches Some(t) ==> t.wf() && t@ == members@,
    {
        let mut entries: Vec<(char, NoValue)> = Vec::new();
        let mut i: usize = 0;
        while i < members.len()
            invariant
                i <= members@.len(),
                entries@.len() == i,
                forall|k: int| 0 <= k < i ==> (#[trigger] entries@[k]).0 == members@[k],
            decreases members@.len() - i,
        {
            entries.push((members[i], NoValue));
            i = i + 1;
        }
        proof {
            assert(entry_views(entries@) =~= members@.map_values(|c: char| (c, ())));
            lemma_keys_sorted_iff(entry_views(entries@));
            assert(entry_keys(entry_views(entries@)) =~= members@);
        }
        match CodepointMap::from_sorted_entries(entries) {
            Some(inner) => {
                let r = CodepointSet { inner };
                proof {
                    assert(r@ =~= members@);
                }
                Some(r)
            },
            None => None,
        }
    }
}

/// A set of character codepoints.
///
/// Implementations are expected to be naive ordered storage that compacts to
/// the indicated format when calling an endpoint provided by this trait. The
/// strings created by the format function are designed to be used as
/// generated source files and embedded as literal expressions.
pub trait CharSet: Sized {
    /// Whether this set is well formed (sorted, no duplicates).
    spec fn wf(&self) -> bool;

    /// The ordered codepoints of this set.
    spec fn members(&self) -> Seq<char>;

    /// A simple deduplicated binary search array slice.
    ///
    /// The output is an array literal of `('low', 'high')` duples, where the
    /// boundaries are `\u{..}` escape literals for the lowest and highest
    /// codepoint of a compacted range (inclusive on both ends). The `'high'`
    /// of one range is always less than the `'low'` of the next, so the
    /// slice is fit for a binary search.
    fn to_bsearch_table(&self) -> (r: String)
        requires
            self.wf(),
        ensures
            r@ == render_members(compact_members(self.members())),
    ;
}

impl CharSet for CodepointSet {
    open spec fn wf(&self) -> bool {
        CodepointSet::wf(self)
    }

    open spec fn members(&self) -> Seq<char> {
        self@
    }

    fn to_bsearch_table(&self) -> (r: String) {
        let ghost m = entry_views(self.inner.entries@);
        proof {
            lemma_codepoint_map_view(&self.inner);
            assert(entry_keys(m) =~= self@);
            let u = self@.map_values(|c: char| (c, ()));
            assert forall|k: int| 0 <= k < m.len() implies u[k] == m[k] by {
                assert(m[k] == (m[k].0, m[k].1));
                assert(u[k] == (self@[k], ()));
            }
            assert(u =~= m);
            lemma_keys_sorted_iff(m);
        }
        let ranges = compact_entries(&self.inner.entries);
        let ghost cs = compact_members(self@);
        proof {
            assert(cs.len() == compact_idx(m).len());
            assert(range_views(ranges@).len() == compact_idx(m).len());
        }
        if ranges.len() == 0 {
            return "&[]".to_owned();
        }
        let mut out = String::new();
        out.append("&[\n");
        let mut j: usize = 0;
        proof {
            assert(cs.take(0) =~= Seq::<(char, char)>::empty());
        }
        while j < ranges.len()
            invariant
                cs == compact_members(self@),
                range_views(ranges@) == compact_idx(entry_views(self.inner.entries@)),
                cs == range_views(ranges@).map_values(|r: (char, char, int)| (r.0, r.1)),
                cs.len() == ranges@.len(),
                j <= ranges@.len(),
                out@ == "&[\n"@ + render_members_body(cs.take(j as int)),
            decreases ranges@.len() - j,
        {
            let (low, high, _gs) = ranges[j];
            proof {
                assert(range_views(ranges@)[j as int] == (low, high, _gs as int));
                assert(cs[j as int] == (low, high));
            }
            append_duple(&mut out, low, high);
            proof {
                lemma_render_members_body_push(cs.take(j as int), cs[j as int]);
                assert(cs.take(j + 1) =~= cs.take(j as int).push(cs[j as int]));
                assert(("&[\n"@ + render_members_body(cs.take(j as int))) + duple_line(low, high)
                    =~= "&[\n"@ + render_members_body(cs.take(j + 1)));
            }
            j = j + 1;
        }
        out.append("]");
        proof {
            assert(cs.take(cs.len() as int) =~= cs);
        }
        out
    }
}

} // verus!

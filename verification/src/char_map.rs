//! A mapping from character codepoints to properties, and its rendering as a
//! binary search table.
//!
//! The table text is an array literal of `('low', 'high', Value)` triples,
//! one per compacted range, designed to be embedded verbatim in generated
//! source and consulted later via binary search.

use crate::compact::{compact_assoc, compact_entries, compact_idx, entry_views, keys_sorted, range_views};
use crate::escape::{escape_unicode, escape_unicode_seq};
use crate::value::{CanonFormat, CanonicalText, ValueEq, ValueFormatter};
use vstd::prelude::*;
use vstd::string::StringExecFns;

verus! {

/// One rendered line of the map table: the two escaped boundaries of a range
/// and the formatted value, indented and followed by a comma and newline.
pub open spec fn triple_line(a: char, b: char, v: Seq<char>) -> Seq<char> {
    "    ('"@ + escape_unicode_seq(a) + "', '"@ + escape_unicode_seq(b) + "', "@ + v + "),\n"@
}

/// The lines of a map table: one [`triple_line`] per range, in order.
pub open spec fn render_assoc_body<V: View, F: ValueFormatter<V>>(
    ranges: Seq<(char, char, V::V)>,
    f: F,
) -> Seq<char>
    decreases ranges.len(),
{
    if ranges.len() == 0 {
        Seq::empty()
    } else {
        triple_line(ranges[0].0, ranges[0].1, f.format_spec(ranges[0].2)) + render_assoc_body(
            ranges.drop_first(),
            f,
        )
    }
}

/// The whole map table: the lines wrapped in an array-literal envelope, or
/// exactly `&[]` when there are no ranges.
pub open spec fn render_assoc<V: View, F: ValueFormatter<V>>(
    ranges: Seq<(char, char, V::V)>,
    f: F,
) -> Seq<char> {
    if ranges.len() == 0 {
        "&[]"@
    } else {
        "&[\n"@ + render_assoc_body(ranges, f) + "]"@
    }
}

/// Appending one range to the table appends one line to its body.
pub proof fn lemma_render_assoc_body_push<V: View, F: ValueFormatter<V>>(
    ranges: Seq<(char, char, V::V)>,
    r: (char, char, V::V),
    f: F,
)
    ensures
        render_assoc_body(ranges.push(r), f) == render_assoc_body(ranges, f) + triple_line(
            r.0,
            r.1,
            f.format_spec(r.2),
        ),
    decreases ranges.len(),
{
    if ranges.len() == 0 {
        assert(ranges.push(r)[0] == r);
        assert(ranges.push(r).drop_first() =~= ranges);
        assert(render_assoc_body(ranges, f) == Seq::<char>::empty());
        assert(render_assoc_body(ranges.push(r), f) == triple_line(r.0, r.1, f.format_spec(r.2))
            + render_assoc_body(ranges, f));
        assert(render_assoc_body(ranges.push(r), f) =~= render_assoc_body(ranges, f)
            + triple_line(r.0, r.1, f.format_spec(r.2)));
    } else {
        lemma_render_assoc_body_push(ranges.drop_first(), r, f);
        assert(ranges.push(r).drop_first() =~= ranges.drop_first().push(r));
        assert(ranges.push(r)[0] == ranges[0]);
        assert(render_assoc_body(ranges.push(r), f) =~= render_assoc_body(ranges, f)
            + triple_line(r.0, r.1, f.format_spec(r.2)));
    }
}

/// Appends one formatted `('low', 'high', Value)` line to the table text
/// under construction. `v` is the already-formatted value text.
pub fn append_triple(out: &mut String, a: char, b: char, v: &str)
    ensures
        final(out)@ == old(out)@ + triple_line(a, b, v@),
{
    out.append("    ('");
    let ea = escape_unicode(a);
    out.append(ea.as_str());
    out.append("', '");
    let eb = escape_unicode(b);
    out.append(eb.as_str());
    out.append("', ");
    out.append(v);
    out.append("),\n");
    proof {
        assert(out@ =~= old(out)@ + triple_line(a, b, v@));
    }
}

/// Inserting into an ordered association: entries with smaller keys keep
/// their place, an entry with the same key has its value replaced, and
/// otherwise the new entry stands before the first larger key.
pub open spec fn insert_entry<M>(s: Seq<(char, M)>, key: char, m: M) -> Seq<(char, M)>
    decreases s.len(),
{
    if s.len() == 0 {
        seq![(key, m)]
    } else if (s[0].0 as u32) < (key as u32) {
        seq![s[0]] + insert_entry(s.drop_first(), key, m)
    } else if s[0].0 as u32 == key as u32 {
        seq![(key, m)] + s.drop_first()
    } else {
        seq![(key, m)] + s
    }
}

/// [`insert_entry`] written positionally: `i` is the number of entries whose
/// key is below `key`.
proof fn lemma_insert_entry_at<M>(s: Seq<(char, M)>, key: char, m: M, i: int)
    requires
        0 <= i <= s.len(),
        forall|k: int| 0 <= k < i ==> ((#[trigger] s[k]).0 as u32) < (key as u32),
        i < s.len() ==> (s[i].0 as u32) >= (key as u32),
    ensures
        insert_entry(s, key, m) == if i < s.len() && (s[i].0 as u32) == (key as u32) {
            s.update(i, (key, m))
        } else {
            s.subrange(0, i) + seq![(key, m)] + s.subrange(i, s.len() as int)
        },
    decreases s.len(),
{
    if i == 0 {
        if s.len() == 0 {
            assert(insert_entry(s, key, m) =~= s.subrange(0, 0) + seq![(key, m)] + s.subrange(
                0,
                0,
            ));
        } else if s[0].0 as u32 == key as u32 {
            assert(insert_entry(s, key, m) =~= s.update(0, (key, m)));
        } else {
            assert(insert_entry(s, key, m) =~= s.subrange(0, 0) + seq![(key, m)] + s.subrange(
                0,
                s.len() as int,
            ));
        }
    } else {
        let t = s.drop_first();
        assert((s[0].0 as u32) < (key as u32));
        lemma_insert_entry_at(t, key, m, i - 1);
        if i < s.len() && (s[i].0 as u32) == (key as u32) {
            assert(t[i - 1] == s[i]);
            assert(seq![s[0]] + t.update(i - 1, (key, m)) =~= s.update(i, (key, m)));
        } else {
            assert(seq![s[0]] + (t.subrange(0, i - 1) + seq![(key, m)] + t.subrange(
                i - 1,
                t.len() as int,
            )) =~= s.subrange(0, i) + seq![(key, m)] + s.subrange(i, s.len() as int));
        }
    }
}

/// An ordered codepoint-to-value association: naive sorted storage that
/// compacts to a binary search table through [`CharMap`].
pub struct CodepointMap<V> {
    pub(crate) entries: Vec<(char, V)>,
}

impl<V: View> View for CodepointMap<V> {
    type V = Seq<(char, V::V)>;

    closed spec fn view(&self) -> Seq<(char, V::V)> {
        entry_views(self.entries@)
    }
}

/// Within the crate, the view of a map is the abstraction of its entries.
pub(crate) proof fn lemma_codepoint_map_view<V: View>(m: &CodepointMap<V>)
    ensures
        m@ == entry_views(m.entries@),
{
}

impl<V: View + ValueEq> CodepointMap<V> {
    /// Whether the entries are strictly ascending by codepoint, as every
    /// value built through `new` and `insert` is.
    pub open spec fn wf(&self) -> bool {
        keys_sorted(self@)
    }

    /// The empty association.
    pub fn new() -> (r: CodepointMap<V>)
        ensures
            r.wf(),
            r@ == Seq::<(char, V::V)>::empty(),
    {
        let r = CodepointMap { entries: Vec::new() };
        proof {
            assert(r@ =~= Seq::<(char, V::V)>::empty());
        }
        r
    }

    /// Inserts `value` under `key`, keeping the entries sorted: an existing
    /// entry with the same key has its value replaced.
    pub fn insert(&mut self, key: char, value: V)
        requires
            old(self).wf(),
        ensures
            final(self).wf(),
            final(self)@ == insert_entry(old(self)@, key, value@),
    {
        let ghost s = self@;
        let mut i: usize = 0;
        while i < self.entries.len() && (self.entries[i].0 as u32) < (key as u32)
            invariant
                self == old(self),
                i <= self.entries@.len(),
                s == self@,
                forall|k: int| 0 <= k < i ==> ((#[trigger] s[k]).0 as u32) < (key as u32),
            decreases self.entries@.len() - i,
        {
            proof {
                assert(s[i as int] == (self.entries@[i as int].0, self.entries@[i as int].1@));
            }
            i = i + 1;
        }
        proof {
            if i < self.entries@.len() {
                assert(s[i as int] == (self.entries@[i as int].0, self.entries@[i as int].1@));
                assert((s[i as int].0 as u32) >= (key as u32));
            }
            lemma_insert_entry_at(s, key, value@, i as int);
        }
        if i < self.entries.len() && (self.entries[i].0 as u32) == (key as u32) {
            let _ = self.entries.remove(i);
            self.entries.insert(i, (key, value));
            proof {
                let t = self@;
                assert(t =~= s.update(i as int, (key, value@)));
                assert forall|p: int, q: int| 0 <= p < q < t.len() implies ((#[trigger] t[p]).0
                    as u32) < ((#[trigger] t[q]).0 as u32) by {
                    assert((s[p].0 as u32) < (s[q].0 as u32));
                    assert((t[p].0 as u32) == (s[p].0 as u32));
                    assert((t[q].0 as u32) == (s[q].0 as u32));
                }
            }
        } else {
            proof {
                if i < self.entries@.len() {
                    assert((s[i as int].0 as u32) > (key as u32));
                }
            }
            self.entries.insert(i, (key, value));
            proof {
                let t = self@;
                assert(t =~= s.subrange(0, i as int) + seq![(key, value@)] + s.subrange(
                    i as int,
                    s.len() as int,
                ));
                assert forall|p: int, q: int| 0 <= p < q < t.len() implies ((#[trigger] t[p]).0
                    as u32) < ((#[trigger] t[q]).0 as u32) by {
                    assert(forall|x: int| 0 <= x < i ==> (#[trigger] t[x]) == s[x]);
                    assert(t[i as int] == (key, value@));
                    assert(forall|x: int|
                        i < x < t.len() ==> (#[trigger] t[x]) == s[x - 1]);
                    if q == i {
                        assert((t[p].0 as u32) < (key as u32));
                    } else if p == i {
                        assert(q > i);
                        assert(t[q] == s[q - 1]);
                        if q - 1 == i {
                            assert((key as u32) < (s[i as int].0 as u32));
                        } else {
                            assert((s[i as int].0 as u32) < (s[q - 1].0 as u32));
                            assert((key as u32) < (s[q - 1].0 as u32));
                        }
                    } else if p < i && q > i {
                        if q - 1 == i {
                            assert((s[p].0 as u32) < (key as u32));
                            assert((key as u32) < (s[q - 1].0 as u32) || i == q - 1);
                            assert((s[p].0 as u32) < (s[i as int].0 as u32));
                        } else {
                            assert((s[p].0 as u32) < (s[q - 1].0 as u32));
                        }
                    }
                }
            }
        }
    }

    /// Builds an association from entries already sorted strictly ascending
    /// by codepoint; `None` when the precondition does not hold, so that a
    /// malformed input aborts generation loudly instead of yielding a wrong
    /// table.
    pub fn from_sorted_entries(entries: Vec<(char, V)>) -> (r: Option<CodepointMap<V>>)
        ensures
            r is Some <==> keys_sorted(entry_views(entries@)),
            r matches Some(t) ==> t.wf() && t@ == entry_views(entries@),
    {
        let ghost m = entry_views(entries@);
        let mut i: usize = 1;
        while i < entries.len()
            invariant
                1 <= i <= entries@.len() || entries@.len() == 0,
                m == entry_views(entries@),
                forall|p: int, q: int|
                    0 <= p < q < i ==> ((#[trigger] m[p]).0 as u32) < ((#[trigger] m[q]).0
                        as u32),
            decreases entries@.len() - i,
        {
            proof {
                assert(m[i as int] == (entries@[i as int].0, entries@[i as int].1@));
                assert(m[i - 1] == (entries@[i - 1].0, entries@[i - 1].1@));
            }
            if entries[i].0 as u32 <= entries[i - 1].0 as u32 {
                return None;
            }
            i = i + 1;
        }
        Some(CodepointMap { entries })
    }
}

/// A mapping from character codepoints to properties.
///
/// Implementations are expected to be naive ordered storage that compacts to
/// the indicated format when calling an endpoint provided by this trait. The
/// strings created by the format functions are designed to be used as
/// generated source files and embedded as literal expressions.
pub trait CharMap<V: View + ValueEq>: Sized {
    /// Whether this association is well formed (sorted, no duplicate keys).
    spec fn wf(&self) -> bool;

    /// The ordered entries of this association, each value as its view.
    spec fn assoc(&self) -> Seq<(char, V::V)>;

    /// A simple deduplicated binary search array slice.
    ///
    /// The output is an array literal of `('low', 'high', Value)` triples,
    /// where the boundaries are `\u{..}` escape literals for the lowest and
    /// highest codepoint of a compacted range (inclusive on both ends) and
    /// `Value` is the result of running `display_fn` over the shared value.
    /// The `'high'` of one range is always less than the `'low'` of the next,
    /// so the slice is fit for a binary search.
    fn to_bsearch_table<F: ValueFormatter<V>>(&self, display_fn: &F) -> (r: String)
        requires
            self.wf(),
        ensures
            r@ == render_assoc(compact_assoc(self.assoc()), *display_fn),
    ;

    /// A simple default for when the value carries its own canonical text,
    /// intended for values that are strings holding the desired expression.
    fn to_bsearch_table_default(&self) -> (r: String) where V: CanonicalText
        requires
            self.wf(),
        ensures
            r@ == render_assoc::<V, CanonFormat>(compact_assoc(self.assoc()), CanonFormat),
    ;
}

impl<V: View + ValueEq> CharMap<V> for CodepointMap<V> {
    open spec fn wf(&self) -> bool {
        CodepointMap::wf(self)
    }

    open spec fn assoc(&self) -> Seq<(char, V::V)> {
        self@
    }

    fn to_bsearch_table<F: ValueFormatter<V>>(&self, display_fn: &F) -> (r: String) {
        let ghost m = entry_views(self.entries@);
        let ranges = compact_entries(&self.entries);
        let ghost cr = compact_assoc(m);
        proof {
            assert(cr.len() == compact_idx(m).len());
            assert(range_views(ranges@).len() == compact_idx(m).len());
        }
        if ranges.len() == 0 {
            return "&[]".to_owned();
        }
        let mut out = String::new();
        out.append("&[\n");
        let mut j: usize = 0;
        proof {
            assert(cr.take(0) =~= Seq::<(char, char, V::V)>::empty());
        }
        while j < ranges.len()
            invariant
                m == entry_views(self.entries@),
                cr == compact_assoc(m),
                range_views(ranges@) == compact_idx(m),
                cr.len() == ranges@.len(),
                forall|k: int| 0 <= k < ranges@.len() ==> (#[trigger] ranges@[k]).2
                    < self.entries@.len(),
                j <= ranges@.len(),
                out@ == "&[\n"@ + render_assoc_body(cr.take(j as int), *display_fn),
            decreases ranges@.len() - j,
        {
            let (low, high, gs) = ranges[j];
            proof {
                assert(range_views(ranges@)[j as int] == (low, high, gs as int));
                assert(cr[j as int] == (low, high, m[gs as int].1));
                assert(m[gs as int] == (self.entries@[gs as int].0, self.entries@[gs as int].1@));
            }
            let d = display_fn.format(&self.entries[gs].1);
            append_triple(&mut out, low, high, d.as_str());
            proof {
                lemma_render_assoc_body_push(cr.take(j as int), cr[j as int], *display_fn);
                assert(cr.take(j + 1) =~= cr.take(j as int).push(cr[j as int]));
                assert(("&[\n"@ + render_assoc_body(cr.take(j as int), *display_fn))
                    + triple_line(low, high, d@) =~= "&[\n"@ + render_assoc_body(
                    cr.take(j + 1),
                    *display_fn,
                ));
            }
            j = j + 1;
        }
        out.append("]");
        proof {
            assert(cr.take(cr.len() as int) =~= cr);
        }
        out
    }

    fn to_bsearch_table_default(&self) -> (r: String) where V: CanonicalText {
        self.to_bsearch_table(&CanonFormat)
    }
}

} // verus!

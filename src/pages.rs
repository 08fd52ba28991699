use vstd::prelude::*;
use crate::decimal::{decimal, decimal_text, parse_u32, parse_u32_spec, lemma_parse_decimal};

verus! {

/// Page numbers strictly increase along the entries.
pub open spec fn pages_increasing<V>(s: Seq<(u32, V)>) -> bool {
    forall|i: int, j: int| 0 <= i < j < s.len() ==> s[i].0 < s[j].0
}

/// Whether some entry is for page `p`.
pub open spec fn has_page<V>(s: Seq<(u32, V)>, p: u32) -> bool {
    exists|i: int| 0 <= i < s.len() && s[i].0 == p
}

/// The mapping from page number to value that a list of entries describes.
pub open spec fn page_map<V>(s: Seq<(u32, V)>) -> Map<u32, V> {
    Map::new(
        |p: u32| has_page(s, p),
        |p: u32| s[choose|i: int| 0 <= i < s.len() && s[i].0 == p].1,
    )
}

/// The entries as stored: each page number written as its decimal text.
pub open spec fn encode_keys<V>(s: Seq<(u32, V)>) -> Seq<(Seq<char>, V)> {
    Seq::new(s.len(), |i: int| (decimal(s[i].0 as nat), s[i].1))
}

/// Reading stored entries: every key must name a page, and a later entry
/// for the same page replaces an earlier one.
pub open spec fn decode_keys<V>(s: Seq<(Seq<char>, V)>) -> Option<Map<u32, V>>
    decreases s.len(),
{
    if s.len() == 0 {
        Some(Map::empty())
    } else {
        match (decode_keys(s.drop_last()), parse_u32_spec(s.last().0)) {
            (Some(m), Some(p)) => Some(m.insert(p, s.last().1)),
            _ => None,
        }
    }
}

/// Whether every key of the stored entries names a page.
pub open spec fn all_keys_parse<V>(s: Seq<(Seq<char>, V)>) -> bool {
    forall|i: int| 0 <= i < s.len() ==> (#[trigger] parse_u32_spec(s[i].0)) is Some
}

proof fn lemma_page_index<V>(s: Seq<(u32, V)>, i: int)
    requires
        pages_increasing(s),
        0 <= i < s.len(),
    ensures
        page_map(s).contains_key(s[i].0),
        page_map(s)[s[i].0] == s[i].1,
{
    let p = s[i].0;
    assert(has_page(s, p));
    let j = choose|j: int| 0 <= j < s.len() && s[j].0 == p;
    if j < i {
        assert(s[j].0 < s[i].0);
    } else if j > i {
        assert(s[i].0 < s[j].0);
    }
}

proof fn lemma_update_value<V>(s: Seq<(u32, V)>, i: int, v: V)
    requires
        pages_increasing(s),
        0 <= i < s.len(),
    ensures
        pages_increasing(s.update(i, (s[i].0, v))),
        page_map(s.update(i, (s[i].0, v))) == page_map(s).insert(s[i].0, v),
{
    let t = s.update(i, (s[i].0, v));
    assert forall|a: int, b: int| 0 <= a < b < t.len() implies t[a].0 < t[b].0 by {
        assert(s[a].0 < s[b].0);
    }
    let m = page_map(s).insert(s[i].0, v);
    assert forall|p: u32| page_map(t).contains_key(p) <==> m.contains_key(p) by {
        if has_page(t, p) {
            let k = choose|k: int| 0 <= k < t.len() && t[k].0 == p;
            assert(s[k].0 == p);
            lemma_page_index(s, k);
        }
        if has_page(s, p) {
            let k = choose|k: int| 0 <= k < s.len() && s[k].0 == p;
            assert(t[k].0 == p);
        }
        if p == s[i].0 {
            assert(t[i].0 == p);
        }
    }
    assert forall|p: u32| #[trigger] page_map(t).contains_key(p) implies page_map(t)[p] == m[p] by {
        let k = choose|k: int| 0 <= k < t.len() && t[k].0 == p;
        lemma_page_index(t, k);
        lemma_page_index(s, k);
    }
    assert(page_map(t) =~= m);
}

proof fn lemma_insert_entry<V>(s: Seq<(u32, V)>, i: int, p: u32, v: V)
    requires
        pages_increasing(s),
        0 <= i <= s.len(),
        forall|k: int| 0 <= k < i ==> s[k].0 < p,
        forall|k: int| i <= k < s.len() ==> s[k].0 > p,
    ensures
        pages_increasing(s.insert(i, (p, v))),
        page_map(s.insert(i, (p, v))) == page_map(s).insert(p, v),
{
    let t = s.insert(i, (p, v));
    assert forall|a: int, b: int| 0 <= a < b < t.len() implies t[a].0 < t[b].0 by {
        if a < i && b < i {
            assert(s[a].0 < s[b].0);
        } else if a > i && b > i {
            assert(s[a - 1].0 < s[b - 1].0);
        } else if a < i && b > i {
            assert(t[a] == s[a]);
            assert(t[b] == s[b - 1]);
        }
    }
    let m = page_map(s).insert(p, v);
    assert forall|q: u32| page_map(t).contains_key(q) <==> m.contains_key(q) by {
        if has_page(t, q) {
            let k = choose|k: int| 0 <= k < t.len() && t[k].0 == q;
            if k < i {
                assert(s[k].0 == q);
                lemma_page_index(s, k);
            } else if k > i {
                assert(s[k - 1].0 == q);
                lemma_page_index(s, k - 1);
            }
        }
        if has_page(s, q) {
            let k = choose|k: int| 0 <= k < s.len() && s[k].0 == q;
            if k < i {
                assert(t[k].0 == q);
            } else {
                assert(t[k + 1].0 == q);
            }
        }
        if q == p {
            assert(t[i].0 == q);
        }
    }
    assert forall|q: u32| #[trigger] page_map(t).contains_key(q) implies page_map(t)[q] == m[q] by {
        let k = choose|k: int| 0 <= k < t.len() && t[k].0 == q;
        lemma_page_index(t, k);
        if k < i {
            lemma_page_index(s, k);
        } else if k > i {
            lemma_page_index(s, k - 1);
        }
    }
    assert(page_map(t) =~= m);
}

proof fn lemma_push_entry<V>(s: Seq<(u32, V)>, p: u32, v: V)
    requires
        pages_increasing(s),
        forall|k: int| 0 <= k < s.len() ==> s[k].0 < p,
    ensures
        pages_increasing(s.push((p, v))),
        page_map(s.push((p, v))) == page_map(s).insert(p, v),
{
    lemma_insert_entry(s, s.len() as int, p, v);
    assert(s.insert(s.len() as int, (p, v)) =~= s.push((p, v)));
}

/// Decoding the stored form of a page mapping gives the mapping back: the
/// keys written are read as the same pages, nothing is lost and nothing added.
pub proof fn lemma_keys_round_trip<V>(s: Seq<(u32, V)>)
    requires
        pages_increasing(s),
    ensures
        decode_keys(encode_keys(s)) == Some(page_map(s)),
    decreases s.len(),
{
    let e = encode_keys(s);
    if s.len() == 0 {
        assert(page_map(s) =~= Map::<u32, V>::empty());
    } else {
        let init = s.drop_last();
        assert(pages_increasing(init)) by {
            assert forall|a: int, b: int| 0 <= a < b < init.len() implies init[a].0 < init[b].0 by {
                assert(s[a].0 < s[b].0);
            }
        }
        lemma_keys_round_trip(init);
        assert(e.drop_last() =~= encode_keys(init));
        lemma_parse_decimal(s.last().0);
        let l = (s.len() - 1) as int;
        assert forall|k: int| 0 <= k < init.len() implies init[k].0 < s.last().0 by {
            assert(s[k].0 < s[l].0);
        }
        lemma_push_entry(init, s.last().0, s.last().1);
        assert(init.push(s.last()) =~= s);
    }
}

proof fn lemma_decode_all_parse<V>(s: Seq<(Seq<char>, V)>)
    ensures
        decode_keys(s) is Some <==> all_keys_parse(s),
    decreases s.len(),
{
    if s.len() > 0 {
        let init = s.drop_last();
        lemma_decode_all_parse(init);
        if all_keys_parse(s) {
            assert forall|i: int| 0 <= i < init.len() implies (#[trigger] parse_u32_spec(
                init[i].0,
            )) is Some by {
                assert(init[i] == s[i]);
            }
            assert(parse_u32_spec(s[s.len() - 1].0) is Some);
        }
        if decode_keys(s) is Some {
            assert forall|i: int| 0 <= i < s.len() implies (#[trigger] parse_u32_spec(
                s[i].0,
            )) is Some by {
                if i < init.len() {
                    assert(init[i] == s[i]);
                }
            }
        }
    }
}

/// A mapping from 1-based page number to a value, kept as entries in strictly
/// increasing page order.
pub struct PageMap<V> {
    entries: Vec<(u32, V)>,
}

impl<V> View for PageMap<V> {
    type V = Seq<(u32, V)>;

    closed spec fn view(&self) -> Seq<(u32, V)> {
        self.entries@
    }
}

impl<V> PageMap<V> {
    /// The invariant: page numbers strictly increase.
    pub open spec fn wf(&self) -> bool {
        pages_increasing(self@)
    }

    /// The mapping that the entries describe.
    pub open spec fn map(&self) -> Map<u32, V> {
        page_map(self@)
    }

    /// An empty mapping.
    pub fn new() -> (r: Self)
        ensures
            r.wf(),
            r@ == Seq::<(u32, V)>::empty(),
            r.map() == Map::<u32, V>::empty(),
    {
        let r = PageMap { entries: Vec::new() };
        assert(r.map() =~= Map::<u32, V>::empty());
        r
    }

    pub fn len(&self) -> (r: usize)
        ensures
            r == self@.len(),
    {
        self.entries.len()
    }

    pub fn is_empty(&self) -> (r: bool)
        ensures
            r == (self@.len() == 0),
    {
        self.entries.len() == 0
    }

    /// The entries in increasing page order.
    pub fn entries(&self) -> (r: &Vec<(u32, V)>)
        ensures
            r@ == self@,
    {
        &self.entries
    }

    /// Where page `page` stands, or where it would be inserted.
    fn position(&self, page: u32) -> (r: usize)
        requires
            self.wf(),
        ensures
            r <= self@.len(),
            forall|k: int| 0 <= k < r ==> self@[k].0 < page,
            forall|k: int| r < k < self@.len() ==> self@[k].0 > page,
            r < self@.len() ==> self@[r as int].0 >= page,
    {
        let mut lo: usize = 0;
        let mut hi: usize = self.entries.len();
        while lo < hi
            invariant
                self.wf(),
                lo <= hi <= self@.len(),
                forall|k: int| 0 <= k < lo ==> self@[k].0 < page,
                forall|k: int| hi <= k < self@.len() ==> self@[k].0 >= page,
            decreases hi - lo,
        {
            let mid = lo + (hi - lo) / 2;
            if self.entries[mid].0 < page {
                assert forall|k: int| 0 <= k < mid + 1 implies self@[k].0 < page by {
                    if k < mid {
                        assert(self@[k].0 < self@[mid as int].0);
                    }
                }
                lo = mid + 1;
            } else {
                assert forall|k: int| mid <= k < self@.len() implies self@[k].0 >= page by {
                    if k > mid {
                        assert(self@[mid as int].0 < self@[k].0);
                    }
                }
                hi = mid;
            }
        }
        assert forall|k: int| lo < k < self@.len() implies self@[k].0 > page by {
            assert(self@[lo as int].0 < self@[k].0);
        }
        lo
    }

    /// Whether page `page` has a value.
    pub fn contains(&self, page: u32) -> (r: bool)
        requires
            self.wf(),
        ensures
            r == self.map().contains_key(page),
    {
        let i = self.position(page);
        if i < self.entries.len() && self.entries[i].0 == page {
            proof {
                lemma_page_index(self@, i as int);
            }
            true
        } else {
            assert(!has_page(self@, page)) by {
                if has_page(self@, page) {
                    let k = choose|k: int| 0 <= k < self@.len() && self@[k].0 == page;
                    assert(self@[k].0 == page);
                }
            }
            false
        }
    }

    /// The value of page `page`, if it has one.
    pub fn get(&self, page: u32) -> (r: Option<&V>)
        requires
            self.wf(),
        ensures
            self.map().contains_key(page) ==> r == Some(&self.map()[page]),
            !self.map().contains_key(page) ==> r is None,
    {
        let i = self.position(page);
        if i < self.entries.len() && self.entries[i].0 == page {
            proof {
                lemma_page_index(self@, i as int);
            }
            Some(&self.entries[i].1)
        } else {
            assert(!has_page(self@, page)) by {
                if has_page(self@, page) {
                    let k = choose|k: int| 0 <= k < self@.len() && self@[k].0 == page;
                    assert(self@[k].0 == page);
                }
            }
            None
        }
    }

    /// The pages among `1..=page_count` that have no value, in increasing
    /// order: what is still to be produced for a document of that many pages.
    pub fn missing_pages(&self, page_count: u32) -> (r: Vec<u32>)
        requires
            self.wf(),
        ensures
            forall|i: int|
                0 <= i < r@.len() ==> 1 <= #[trigger] r@[i] <= page_count && !self.map().contains_key(
                    r@[i],
                ),
            forall|i: int, j: int| 0 <= i < j < r@.len() ==> r@[i] < r@[j],
            forall|q: u32| 1 <= q <= page_count && !self.map().contains_key(q) ==> r@.contains(q),
    {
        let mut out: Vec<u32> = Vec::new();
        let mut q: u64 = 1;
        while q <= page_count as u64
            invariant
                self.wf(),
                1 <= q <= page_count as u64 + 1,
                forall|i: int|
                    0 <= i < out@.len() ==> 1 <= #[trigger] out@[i] < q && !self.map().contains_key(
                        out@[i],
                    ),
                forall|i: int, j: int| 0 <= i < j < out@.len() ==> out@[i] < out@[j],
                forall|x: u32| 1 <= x < q && !self.map().contains_key(x) ==> out@.contains(x),
            decreases page_count as u64 + 1 - q,
        {
            let page = q as u32;
            if !self.contains(page) {
                let ghost before = out@;
                out.push(page);
                assert forall|x: u32| 1 <= x < q + 1 && !self.map().contains_key(x) implies out@.contains(x) by {
                    if x < q {
                        assert(before.contains(x));
                        let i = choose|i: int| 0 <= i < before.len() && before[i] == x;
                        assert(out@[i] == x);
                    } else {
                        assert(out@[before.len() as int] == x);
                    }
                }
            }
            q = q + 1;
        }
        out
    }

    /// Sets the value of page `page`, replacing any value it had.
    pub fn insert(&mut self, page: u32, value: V)
        requires
            old(self).wf(),
        ensures
            final(self).wf(),
            final(self).map() == old(self).map().insert(page, value),
    {
        let i = self.position(page);
        if i < self.entries.len() && self.entries[i].0 == page {
            proof {
                lemma_update_value(self@, i as int, value);
            }
            self.entries.set(i, (page, value));
        } else {
            proof {
                lemma_insert_entry(self@, i as int, page, value);
            }
            self.entries.insert(i, (page, value));
        }
    }

    /// The entries with each page number written as its decimal text, in
    /// increasing page order: the form in which the mapping is stored.
    pub fn keyed_entries(&self) -> (r: Vec<(String, &V)>)
        ensures
            r@.len() == self@.len(),
            forall|i: int|
                0 <= i < r@.len() ==> (#[trigger] r@[i]).0@ == encode_keys(self@)[i].0 && *r@[i].1
                    == encode_keys(self@)[i].1,
    {
        let mut out: Vec<(String, &V)> = Vec::new();
        let mut i: usize = 0;
        while i < self.entries.len()
            invariant
                i <= self@.len(),
                out@.len() == i,
                forall|k: int|
                    0 <= k < i ==> (#[trigger] out@[k]).0@ == encode_keys(self@)[k].0 && *out@[k].1
                        == encode_keys(self@)[k].1,
            decreases self@.len() - i,
        {
            let entry = &self.entries[i];
            out.push((decimal_text(entry.0 as u64), &entry.1));
            i = i + 1;
        }
        out
    }

    /// Reads stored entries, in order, into a mapping. A key that does not
    /// name a page is refused and handed back.
    pub fn from_keyed_entries(entries: Vec<(String, V)>) -> (r: Result<Self, String>)
        ensures
            all_keys_parse(keyed_view(entries@)) <==> r is Ok,
            r matches Ok(m) ==> m.wf() && decode_keys(keyed_view(entries@)) == Some(m.map()),
            r matches Err(k) ==> exists|i: int|
                0 <= i < entries@.len() && entries@[i].0@ == k@ && parse_u32_spec(k@) is None,
    {
        let ghost all = keyed_view(entries@);
        let ghost n = entries@.len();
        assert(n == entries.len());
        let mut rest = entries;
        let mut out: PageMap<V> = PageMap::new();
        let mut i: usize = 0;
        proof {
            assert(all.subrange(0, 0) =~= Seq::<(Seq<char>, V)>::empty());
        }
        while rest.len() > 0
            invariant
                i + rest@.len() == n,
                n <= usize::MAX,
                all == keyed_view(entries@),
                n == all.len(),
                out.wf(),
                keyed_view(rest@) == all.subrange(i as int, n as int),
                decode_keys(all.subrange(0, i as int)) == Some(out.map()),
            decreases rest@.len(),
        {
            let ghost before = rest@;
            let (key, value) = rest.remove(0);
            assert(keyed_view(before)[0] == all.subrange(i as int, n as int)[0]);
            assert(all[i as int] == (key@, value));
            assert(keyed_view(rest@) =~= all.subrange(i + 1, n as int)) by {
                assert forall|k: int| 0 <= k < rest@.len() implies keyed_view(rest@)[k] == all.subrange(
                    i + 1,
                    n as int,
                )[k] by {
                    assert(rest@[k] == before[k + 1]);
                    assert(keyed_view(before)[k + 1] == all.subrange(i as int, n as int)[k + 1]);
                }
            }
            let ghost next = all.subrange(0, i + 1);
            assert(next.drop_last() =~= all.subrange(0, i as int));
            match parse_u32(key.as_str()) {
                Some(page) => {
                    out.insert(page, value);
                },
                None => {
                    proof {
                        lemma_decode_all_parse(all);
                        assert(entries@[i as int].0@ == key@);
                        assert(parse_u32_spec(all[i as int].0) is None);
                    }
                    return Err(key);
                },
            }
            i = i + 1;
        }
        proof {
            assert(all.subrange(0, n as int) =~= all);
            lemma_decode_all_parse(all);
        }
        Ok(out)
    }
}

impl<S> PageMap<Vec<S>> {
    /// Appends `item` to the list of page `page`, starting the list when the
    /// page has none.
    pub fn push_to(&mut self, page: u32, item: S)
        requires
            old(self).wf(),
        ensures
            final(self).wf(),
            final(self).map().dom() == old(self).map().dom().insert(page),
            forall|q: u32|
                q != page && old(self).map().contains_key(q) ==> final(self).map()[q] == old(self).map()[q],
            final(self).map()[page]@ == (if old(self).map().contains_key(page) {
                old(self).map()[page]@
            } else {
                Seq::<S>::empty()
            }).push(item),
    {
        let i = self.position(page);
        if i < self.entries.len() && self.entries[i].0 == page {
            let ghost before = self@;
            proof {
                lemma_page_index(before, i as int);
            }
            self.entries[i].1.push(item);
            proof {
                assert(self@ =~= before.update(i as int, (page, self@[i as int].1)));
                lemma_update_value(before, i as int, self@[i as int].1);
            }
        } else {
            let mut list: Vec<S> = Vec::new();
            list.push(item);
            proof {
                assert(!has_page(self@, page)) by {
                    if has_page(self@, page) {
                        let k = choose|k: int| 0 <= k < self@.len() && self@[k].0 == page;
                        assert(self@[k].0 == page);
                    }
                }
            }
            self.insert(page, list);
        }
    }
}

/// The stored entries, keys as their text.
pub open spec fn keyed_view<V>(s: Seq<(String, V)>) -> Seq<(Seq<char>, V)> {
    Seq::new(s.len(), |i: int| (s[i].0@, s[i].1))
}

/// Reading back what `keyed_entries` lists gives the same mapping.
pub proof fn lemma_page_map_round_trip<V>(m: PageMap<V>)
    requires
        m.wf(),
    ensures
        decode_keys(encode_keys(m@)) == Some(m.map()),
{
    lemma_keys_round_trip(m@);
}

} // verus!

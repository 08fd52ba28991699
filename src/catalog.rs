use vstd::prelude::*;
use crate::text::{blank, is_blank};

verus! {

/// A registered document: its identity, where it came from, where its copy
/// and cover live, and the name shown for it.
pub struct PdfEntry {
    pub id: u64,
    pub original_path: String,
    pub clone_path: String,
    pub cover_path: String,
    pub file_name: String,
}

impl PdfEntry {
    pub fn new(
        id: u64,
        original_path: String,
        clone_path: String,
        cover_path: String,
        file_name: String,
    ) -> (r: Self)
        ensures
            r.id == id,
            r.original_path == original_path,
            r.clone_path == clone_path,
            r.cover_path == cover_path,
            r.file_name == file_name,
    {
        PdfEntry { id, original_path, clone_path, cover_path, file_name }
    }
}

/// Why a catalog operation was refused.
#[derive(Debug, PartialEq, Eq, Structural)]
pub enum CatalogError {
    /// No entry has the identity asked for.
    NotFound,
    /// The stored entries are not in strictly increasing order of identity.
    Unsorted,
    /// The largest identity is already `u64::MAX`: no further identity exists.
    IdentitiesExhausted,
    /// The display name is empty or only white space.
    EmptyName,
}

/// Identities strictly increase along the sequence.
pub open spec fn ids_increasing(s: Seq<PdfEntry>) -> bool {
    forall|i: int, j: int| 0 <= i < j < s.len() ==> s[i].id < s[j].id
}

/// Every present identity is at most `mark`, the largest identity ever
/// handed out (0 when none was).
pub open spec fn below_mark(s: Seq<PdfEntry>, mark: u64) -> bool {
    forall|i: int| 0 <= i < s.len() ==> s[i].id <= mark
}

/// The identity that the next registration receives: one more than the
/// largest identity ever handed out, so 1 for a catalog that never had one.
pub open spec fn next_identity_spec(mark: u64) -> int {
    mark + 1
}

/// The mark of a catalog read back from storage: the stored mark, raised to
/// the largest stored identity when that is higher.
pub open spec fn restored_mark(s: Seq<PdfEntry>, stored: u64) -> u64 {
    if s.len() > 0 && s.last().id > stored {
        s.last().id
    } else {
        stored
    }
}

/// Whether some entry has identity `id`.
pub open spec fn has_id(s: Seq<PdfEntry>, id: u64) -> bool {
    exists|k: int| 0 <= k < s.len() && s[k].id == id
}

/// The catalog of registered documents, kept in strictly increasing order of
/// identity so that lookup can search by halving, with the largest identity
/// ever handed out, which removals do not lower.
pub struct Catalog {
    entries: Vec<PdfEntry>,
    mark: u64,
}

impl View for Catalog {
    type V = Seq<PdfEntry>;

    closed spec fn view(&self) -> Seq<PdfEntry> {
        self.entries@
    }
}

/// Identities are never reused. In a well-formed catalog with mark `h`, the
/// next identity `h + 1` is above every present identity and above every
/// identity handed out before (none exceeds the mark); a catalog that never
/// handed one out gives 1. Registering raises the mark to the identity it
/// gives, and removing an entry keeps the mark, so a removed identity stays
/// below every identity given later.
pub proof fn lemma_identity_allocation(s: Seq<PdfEntry>, h: u64, k: int, e: PdfEntry)
    requires
        ids_increasing(s),
        below_mark(s, h),
    ensures
        h == 0 ==> next_identity_spec(h) == 1,
        forall|i: int| 0 <= i < s.len() ==> s[i].id < next_identity_spec(h),
        h < next_identity_spec(h),
        0 <= k < s.len() ==> below_mark(s.remove(k), h) && s[k].id < next_identity_spec(h),
        e.id == next_identity_spec(h) ==> below_mark(s.push(e), e.id) && h < e.id,
{
    if 0 <= k < s.len() {
        let t = s.remove(k);
        assert forall|i: int| 0 <= i < t.len() implies t[i].id <= h by {
            if i < k {
                assert(t[i] == s[i]);
            } else {
                assert(t[i] == s[i + 1]);
            }
        }
    }
    if e.id == next_identity_spec(h) {
        let t = s.push(e);
        assert forall|i: int| 0 <= i < t.len() implies t[i].id <= e.id by {
            if i < s.len() {
                assert(t[i] == s[i]);
            }
        }
    }
}

/// Registering (appending an identity above the mark) and removing an entry
/// both keep the catalog sorted by identity, which lookup by halving relies
/// on: in a sorted catalog it finds exactly the identities that are present.
pub proof fn lemma_lookup_invariant(s: Seq<PdfEntry>, h: u64, e: PdfEntry, k: int)
    requires
        ids_increasing(s),
        below_mark(s, h),
        e.id == next_identity_spec(h),
    ensures
        ids_increasing(s.push(e)),
        0 <= k < s.len() ==> ids_increasing(s.remove(k)),
{
    lemma_push_sorted(s, e);
    if 0 <= k < s.len() {
        lemma_remove_sorted(s, k);
    }
}

proof fn lemma_push_sorted(s: Seq<PdfEntry>, e: PdfEntry)
    requires
        ids_increasing(s),
        forall|i: int| 0 <= i < s.len() ==> s[i].id < e.id,
    ensures
        ids_increasing(s.push(e)),
{
    let t = s.push(e);
    assert forall|i: int, j: int| 0 <= i < j < t.len() implies t[i].id < t[j].id by {
        assert(t[i] == s[i]);
        if j < s.len() {
            assert(t[j] == s[j]);
        }
    }
}

proof fn lemma_remove_sorted(s: Seq<PdfEntry>, k: int)
    requires
        ids_increasing(s),
        0 <= k < s.len(),
    ensures
        ids_increasing(s.remove(k)),
{
    let t = s.remove(k);
    assert forall|i: int, j: int| 0 <= i < j < t.len() implies t[i].id < t[j].id by {
        let a = if i < k { i } else { i + 1 };
        let b = if j < k { j } else { j + 1 };
        assert(t[i] == s[a]);
        assert(t[j] == s[b]);
    }
}

impl Catalog {
    /// The largest identity ever handed out; 0 when none was.
    pub closed spec fn mark(&self) -> u64 {
        self.mark
    }

    /// The catalog's invariant: identities strictly increase, and none is
    /// above the mark.
    pub open spec fn wf(&self) -> bool {
        ids_increasing(self@) && below_mark(self@, self.mark())
    }

    /// An empty catalog that never handed out an identity.
    pub fn new() -> (r: Catalog)
        ensures
            r.wf(),
            r@ == Seq::<PdfEntry>::empty(),
            r.mark() == 0,
    {
        Catalog { entries: Vec::new(), mark: 0 }
    }

    /// A catalog holding `entries` as they were stored, with `last_issued`
    /// the stored largest identity ever handed out; refused when the
    /// identities do not strictly increase.
    pub fn from_entries(entries: Vec<PdfEntry>, last_issued: u64) -> (r: Result<Catalog, CatalogError>)
        ensures
            ids_increasing(entries@) ==> (r matches Ok(c) && c.wf() && c@ == entries@ && c.mark()
                == restored_mark(entries@, last_issued)),
            !ids_increasing(entries@) ==> r == Err::<Catalog, CatalogError>(CatalogError::Unsorted),
    {
        let n = entries.len();
        let mut i: usize = 1;
        while i < n
            invariant
                1 <= i,
                n == entries@.len(),
                forall|a: int, b: int| 0 <= a < b < i && b < n ==> entries@[a].id < entries@[b].id,
            decreases n - i,
        {
            if entries[i - 1].id >= entries[i].id {
                return Err(CatalogError::Unsorted);
            }
            assert forall|a: int, b: int| 0 <= a < b < i + 1 && b < n implies entries@[a].id
                < entries@[b].id by {
                if b == i && a < i - 1 {
                    assert(entries@[a].id < entries@[i - 1].id);
                }
            }
            i = i + 1;
        }
        let mark = if n > 0 && entries[n - 1].id > last_issued {
            entries[n - 1].id
        } else {
            last_issued
        };
        let c = Catalog { entries, mark };
        assert forall|k: int| 0 <= k < c@.len() implies c@[k].id <= mark by {
            if k < n - 1 {
                assert(c@[k].id < c@[n - 1].id);
            }
        }
        Ok(c)
    }

    /// The largest identity ever handed out, as it is stored beside the
    /// entries.
    pub fn last_issued(&self) -> (r: u64)
        ensures
            r == self.mark(),
    {
        self.mark
    }

    /// The entries in catalog order.
    pub fn entries(&self) -> (r: &Vec<PdfEntry>)
        ensures
            r@ == self@,
    {
        &self.entries
    }

    /// The entries in catalog order, handing the catalog over.
    pub fn into_entries(self) -> (r: Vec<PdfEntry>)
        ensures
            r@ == self@,
    {
        self.entries
    }

    pub fn len(&self) -> (r: usize)
        ensures
            r == self@.len(),
    {
        self.entries.len()
    }

    /// The identity that the next registration receives; `None` when
    /// `u64::MAX` was already handed out.
    pub fn next_identity(&self) -> (r: Option<u64>)
        ensures
            self.mark() < u64::MAX ==> r == Some((self.mark() + 1) as u64),
            self.mark() == u64::MAX ==> r is None,
    {
        if self.mark == u64::MAX {
            None
        } else {
            Some(self.mark + 1)
        }
    }

    /// Position of the entry with identity `id`, found by halving.
    pub fn find(&self, id: u64) -> (r: Option<usize>)
        requires
            self.wf(),
        ensures
            r matches Some(i) ==> i < self@.len() && self@[i as int].id == id,
            r is None <==> !has_id(self@, id),
    {
        let ghost s = self@;
        let mut lo: usize = 0;
        let mut hi: usize = self.entries.len();
        while lo < hi
            invariant
                s == self@,
                self.wf(),
                lo <= hi <= s.len(),
                forall|k: int| 0 <= k < lo ==> s[k].id < id,
                forall|k: int| hi <= k < s.len() ==> s[k].id > id,
            decreases hi - lo,
        {
            let mid = lo + (hi - lo) / 2;
            let m = self.entries[mid].id;
            if m == id {
                return Some(mid);
            } else if m < id {
                assert forall|k: int| 0 <= k < mid + 1 implies s[k].id < id by {
                    if k < mid {
                        assert(s[k].id < s[mid as int].id);
                    }
                }
                lo = mid + 1;
            } else {
                assert forall|k: int| mid <= k < s.len() implies s[k].id > id by {
                    if k > mid {
                        assert(s[mid as int].id < s[k].id);
                    }
                }
                hi = mid;
            }
        }
        assert(!has_id(s, id)) by {
            if has_id(s, id) {
                let k = choose|k: int| 0 <= k < s.len() && s[k].id == id;
                assert(s[k].id == id);
            }
        }
        None
    }

    /// The entry with identity `id`, if present.
    pub fn lookup(&self, id: u64) -> (r: Option<&PdfEntry>)
        requires
            self.wf(),
        ensures
            r matches Some(e) ==> e.id == id && self@.contains(*e),
            r is None <==> !has_id(self@, id),
    {
        match self.find(id) {
            Some(i) => {
                Some(&self.entries[i])
            },
            None => None,
        }
    }

    /// Registers a document under the next identity, appending it, and
    /// returns that identity, which becomes the mark.
    pub fn register(
        &mut self,
        original_path: String,
        clone_path: String,
        cover_path: String,
        file_name: String,
    ) -> (r: Result<u64, CatalogError>)
        requires
            old(self).wf(),
        ensures
            final(self).wf(),
            old(self).mark() < u64::MAX ==> r == Ok::<u64, CatalogError>(
                next_identity_spec(old(self).mark()) as u64,
            ) && final(self).mark() == next_identity_spec(old(self).mark()) && final(self)@ == old(self)@.push(
                PdfEntry {
                    id: next_identity_spec(old(self).mark()) as u64,
                    original_path,
                    clone_path,
                    cover_path,
                    file_name,
                },
            ),
            old(self).mark() == u64::MAX ==> r == Err::<u64, CatalogError>(
                CatalogError::IdentitiesExhausted,
            ) && final(self)@ == old(self)@ && final(self).mark() == old(self).mark(),
    {
        match self.next_identity() {
            None => Err(CatalogError::IdentitiesExhausted),
            Some(id) => {
                let entry = PdfEntry::new(id, original_path, clone_path, cover_path, file_name);
                proof {
                    lemma_identity_allocation(self@, self.mark, 0, entry);
                    lemma_push_sorted(self@, entry);
                }
                self.entries.push(entry);
                self.mark = id;
                Ok(id)
            },
        }
    }

    /// Removes the entry with identity `id`; `false` when there is none. The
    /// mark stays, so the identity is not handed out again.
    pub fn remove(&mut self, id: u64) -> (r: bool)
        requires
            old(self).wf(),
        ensures
            final(self).wf(),
            final(self).mark() == old(self).mark(),
            r == has_id(old(self)@, id),
            r ==> exists|i: int|
                0 <= i < old(self)@.len() && old(self)@[i].id == id && final(self)@ == old(self)@.remove(i),
            !r ==> final(self)@ == old(self)@,
    {
        match self.find(id) {
            Some(i) => {
                proof {
                    lemma_remove_sorted(self@, i as int);
                    lemma_identity_allocation(self@, self.mark, i as int, self@[i as int]);
                }
                let ghost before = self@;
                self.entries.remove(i);
                assert(before[i as int].id == id && self@ == before.remove(i as int));
                true
            },
            None => false,
        }
    }

    /// Gives the entry with identity `id` the display name `name`. A blank
    /// name is refused first, then an unknown identity; either way nothing
    /// changes.
    pub fn rename(&mut self, id: u64, name: String) -> (r: Result<(), CatalogError>)
        requires
            old(self).wf(),
        ensures
            final(self).wf(),
            final(self).mark() == old(self).mark(),
            blank(name@) ==> r == Err::<(), CatalogError>(CatalogError::EmptyName) && final(self)@
                == old(self)@,
            !blank(name@) && has_id(old(self)@, id) ==> r is Ok && exists|i: int|
                0 <= i < old(self)@.len() && old(self)@[i].id == id && final(self)@ == old(self)@.update(i, PdfEntry { file_name: name, ..old(self)@[i] }),
            !blank(name@) && !has_id(old(self)@, id) ==> r == Err::<(), CatalogError>(
                CatalogError::NotFound,
            ) && final(self)@ == old(self)@,
    {
        if is_blank(name.as_str()) {
            return Err(CatalogError::EmptyName);
        }
        match self.find(id) {
            Some(i) => {
                let ghost before = self@;
                self.entries[i].file_name = name;
                assert(self@ =~= before.update(i as int, PdfEntry { file_name: name, ..before[i as int] }));
                assert forall|a: int, b: int| 0 <= a < b < self@.len() implies self@[a].id
                    < self@[b].id by {
                    assert(before[a].id < before[b].id);
                }
                assert forall|a: int| 0 <= a < self@.len() implies self@[a].id <= self.mark by {
                    assert(self@[a].id == before[a].id);
                }
                Ok(())
            },
            None => Err(CatalogError::NotFound),
        }
    }
}

} // verus!

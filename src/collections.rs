use vstd::prelude::*;
use crate::text::{blank, is_blank};

verus! {

/// A named, coloured group of documents.
pub struct Collection {
    pub id: String,
    pub name: String,
    pub color: String,
    /// Identities of the documents in the group.
    pub pdf_ids: Vec<String>,
}

/// Every collection, in the order they were created.
pub struct CollectionsFile {
    pub collections: Vec<Collection>,
}

/// Why a collection operation was refused; nothing was changed.
#[derive(Debug, PartialEq, Eq, Structural)]
pub enum CollectionError {
    /// The name is empty or only white space.
    EmptyName,
    /// Another collection already has that name.
    DuplicateName,
    /// No collection has the identity asked for.
    NotFound,
}

/// The texts of a list of strings, as a set.
pub open spec fn text_set(s: Seq<String>) -> Set<Seq<char>> {
    Set::new(|t: Seq<char>| exists|i: int| 0 <= i < s.len() && s[i]@ == t)
}

/// The documents of a collection.
pub open spec fn members(c: Collection) -> Set<Seq<char>> {
    text_set(c.pdf_ids@)
}

/// Whether some collection has identity `id`.
pub open spec fn has_collection(s: Seq<Collection>, id: Seq<char>) -> bool {
    exists|i: int| 0 <= i < s.len() && s[i].id@ == id
}

/// `i` is the first collection with identity `id`.
pub open spec fn first_with_id(s: Seq<Collection>, id: Seq<char>, i: int) -> bool {
    0 <= i < s.len() && s[i].id@ == id && forall|k: int| 0 <= k < i ==> s[k].id@ != id
}

/// Whether a collection other than `id` is named `name`.
pub open spec fn name_taken(s: Seq<Collection>, name: Seq<char>, id: Seq<char>) -> bool {
    exists|i: int| 0 <= i < s.len() && s[i].name@ == name && s[i].id@ != id
}

/// Whether some collection is named `name`.
pub open spec fn has_name(s: Seq<Collection>, name: Seq<char>) -> bool {
    exists|i: int| 0 <= i < s.len() && s[i].name@ == name
}

/// How many of the collections hold document `pdf`.
pub open spec fn count_holding(s: Seq<Collection>, pdf: Seq<char>) -> nat
    decreases s.len(),
{
    if s.len() == 0 {
        0
    } else {
        count_holding(s.drop_last(), pdf) + if members(s.last()).contains(pdf) {
            1nat
        } else {
            0nat
        }
    }
}

/// Relies on `chrono::Utc::now` and its `format` with `%Y%m%d%H%M%S%3f`:
/// the current UTC time down to the millisecond. It depends on the clock, so
/// nothing is promised of it.
#[verifier::external_body]
fn utc_millis_stamp() -> (r: String) {
    chrono::Utc::now().format("%Y%m%d%H%M%S%3f").to_string()
}

fn text_eq(a: &String, b: &String) -> (r: bool)
    ensures
        r == (a@ == b@),
{
    *a == *b
}

impl Collection {
    /// Whether document `pdf_id` is in the collection.
    pub fn contains_pdf(&self, pdf_id: &String) -> (r: bool)
        ensures
            r == members(*self).contains(pdf_id@),
    {
        let mut i: usize = 0;
        while i < self.pdf_ids.len()
            invariant
                i <= self.pdf_ids@.len(),
                forall|k: int| 0 <= k < i ==> self.pdf_ids@[k]@ != pdf_id@,
            decreases self.pdf_ids@.len() - i,
        {
            if text_eq(&self.pdf_ids[i], pdf_id) {
                assert(text_set(self.pdf_ids@).contains(pdf_id@)) by {
                    assert(self.pdf_ids@[i as int]@ == pdf_id@);
                }
                return true;
            }
            i = i + 1;
        }
        assert(!text_set(self.pdf_ids@).contains(pdf_id@)) by {
            if text_set(self.pdf_ids@).contains(pdf_id@) {
                let k = choose|k: int| 0 <= k < self.pdf_ids@.len() && self.pdf_ids@[k]@ == pdf_id@;
                assert(self.pdf_ids@[k]@ == pdf_id@);
            }
        }
        false
    }

    /// Puts document `pdf_id` in the collection; no change if it is there.
    pub fn add_pdf(&mut self, pdf_id: String)
        ensures
            members(*final(self)) == members(*old(self)).insert(pdf_id@),
            final(self).id == old(self).id,
            final(self).name == old(self).name,
            final(self).color == old(self).color,
    {
        if !self.contains_pdf(&pdf_id) {
            let ghost before = self.pdf_ids@;
            let ghost t = pdf_id@;
            self.pdf_ids.push(pdf_id);
            assert(text_set(self.pdf_ids@) =~= text_set(before).insert(t)) by {
                assert(self.pdf_ids@[before.len() as int]@ == t);
                assert forall|x: Seq<char>| text_set(before).contains(x) implies text_set(
                    self.pdf_ids@,
                ).contains(x) by {
                    let k = choose|k: int| 0 <= k < before.len() && before[k]@ == x;
                    assert(self.pdf_ids@[k]@ == x);
                }
                assert forall|x: Seq<char>| text_set(self.pdf_ids@).contains(x) implies text_set(
                    before,
                ).insert(t).contains(x) by {
                    let k = choose|k: int| 0 <= k < self.pdf_ids@.len() && self.pdf_ids@[k]@ == x;
                    if k < before.len() {
                        assert(before[k]@ == x);
                    }
                }
            }
        } else {
            assert(members(*self).insert(pdf_id@) =~= members(*self));
        }
    }

    /// Takes document `pdf_id` out of the collection; `true` when it was in.
    pub fn remove_pdf(&mut self, pdf_id: &String) -> (r: bool)
        ensures
            r == members(*old(self)).contains(pdf_id@),
            members(*final(self)) == members(*old(self)).remove(pdf_id@),
            final(self).id == old(self).id,
            final(self).name == old(self).name,
            final(self).color == old(self).color,
    {
        let was_in = self.contains_pdf(pdf_id);
        let ghost s = self.pdf_ids@;
        let mut rest: Vec<String> = Vec::new();
        std::mem::swap(&mut self.pdf_ids, &mut rest);
        let mut kept: Vec<String> = Vec::new();
        let ghost n = s.len();
        assert(n == rest.len());
        let mut i: usize = 0;
        while rest.len() > 0
            invariant
                i + rest@.len() == n,
                n == s.len(),
                n <= usize::MAX,
                rest@ == s.subrange(i as int, n as int),
                text_set(kept@) == text_set(s.subrange(0, i as int)).remove(pdf_id@),
            decreases rest@.len(),
        {
            let ghost before = kept@;
            let x = rest.remove(0);
            assert(x == s[i as int]);
            assert(rest@ =~= s.subrange(i + 1, n as int));
            let ghost pre = s.subrange(0, i as int);
            let ghost next = s.subrange(0, i + 1);
            assert(text_set(next) =~= text_set(pre).insert(x@)) by {
                assert(next[i as int] == x);
                assert forall|y: Seq<char>| text_set(pre).contains(y) implies text_set(next).contains(y) by {
                    let k = choose|k: int| 0 <= k < pre.len() && pre[k]@ == y;
                    assert(next[k] == pre[k]);
                }
                assert forall|y: Seq<char>| text_set(next).contains(y) implies text_set(pre).insert(
                    x@,
                ).contains(y) by {
                    let k = choose|k: int| 0 <= k < next.len() && next[k]@ == y;
                    if k < i {
                        assert(pre[k] == next[k]);
                    }
                }
            }
            if !text_eq(&x, pdf_id) {
                let ghost xv = x@;
                kept.push(x);
                assert(text_set(kept@) =~= text_set(before).insert(xv)) by {
                    assert(kept@[before.len() as int]@ == xv);
                    assert forall|y: Seq<char>| text_set(before).contains(y) implies text_set(
                        kept@,
                    ).contains(y) by {
                        let k = choose|k: int| 0 <= k < before.len() && before[k]@ == y;
                        assert(kept@[k] == before[k]);
                    }
                    assert forall|y: Seq<char>| text_set(kept@).contains(y) implies text_set(
                        before,
                    ).insert(xv).contains(y) by {
                        let k = choose|k: int| 0 <= k < kept@.len() && kept@[k]@ == y;
                        if k < before.len() {
                            assert(before[k] == kept@[k]);
                        }
                    }
                }
                assert(text_set(kept@) =~= text_set(next).remove(pdf_id@));
            } else {
                assert(text_set(kept@) =~= text_set(next).remove(pdf_id@));
            }
            i = i + 1;
        }
        assert(s.subrange(0, n as int) =~= s);
        self.pdf_ids = kept;
        was_in
    }
}

/// Position of the first collection with identity `id`.
fn position_of(collections: &Vec<Collection>, id: &String) -> (r: Option<usize>)
    ensures
        r matches Some(i) ==> first_with_id(collections@, id@, i as int),
        r is None <==> !has_collection(collections@, id@),
{
    let mut i: usize = 0;
    while i < collections.len()
        invariant
            i <= collections@.len(),
            forall|k: int| 0 <= k < i ==> collections@[k].id@ != id@,
        decreases collections@.len() - i,
    {
        if text_eq(&collections[i].id, id) {
            return Some(i);
        }
        i = i + 1;
    }
    assert(!has_collection(collections@, id@)) by {
        if has_collection(collections@, id@) {
            let k = choose|k: int| 0 <= k < collections@.len() && collections@[k].id@ == id@;
            assert(collections@[k].id@ == id@);
        }
    }
    None
}

impl CollectionsFile {
    /// No collections.
    pub fn new() -> (r: Self)
        ensures
            r.collections@.len() == 0,
    {
        CollectionsFile { collections: Vec::new() }
    }

    /// Whether some collection is named `name`.
    fn name_in_use(&self, name: &String, except: Option<&String>) -> (r: bool)
        ensures
            except is None ==> r == has_name(self.collections@, name@),
            except matches Some(id) ==> r == name_taken(self.collections@, name@, id@),
    {
        let mut i: usize = 0;
        while i < self.collections.len()
            invariant
                i <= self.collections@.len(),
                forall|k: int|
                    0 <= k < i ==> !(self.collections@[k].name@ == name@ && (match except {
                        Some(id) => self.collections@[k].id@ != id@,
                        None => true,
                    })),
            decreases self.collections@.len() - i,
        {
            let c = &self.collections[i];
            if text_eq(&c.name, name) {
                let other = match except {
                    Some(id) => !text_eq(&c.id, id),
                    None => true,
                };
                if other {
                    return true;
                }
            }
            i = i + 1;
        }
        proof {
            let s = self.collections@;
            if has_name(s, name@) && except is None {
                let k = choose|k: int| 0 <= k < s.len() && s[k].name@ == name@;
                assert(s[k].name@ == name@);
            }
            if let Some(id) = except {
                if name_taken(s, name@, id@) {
                    let k = choose|k: int| 0 <= k < s.len() && s[k].name@ == name@ && s[k].id@ != id@;
                    assert(s[k].name@ == name@);
                }
            }
        }
        false
    }

    /// Adds an empty collection with identity `id`. A blank name, or a name
    /// that another collection has, is refused.
    pub fn create_with_id(&mut self, id: String, name: String, color: String) -> (r: Result<
        (),
        CollectionError,
    >)
        ensures
            blank(name@) ==> r == Err::<(), CollectionError>(CollectionError::EmptyName),
            !blank(name@) && has_name(old(self).collections@, name@) ==> r == Err::<
                (),
                CollectionError,
            >(CollectionError::DuplicateName),
            !blank(name@) && !has_name(old(self).collections@, name@) ==> r is Ok,
            r is Ok ==> final(self).collections@.len() == old(self).collections@.len() + 1
                && final(self).collections@.drop_last() == old(self).collections@
                && final(self).collections@.last().id == id
                && final(self).collections@.last().name == name
                && final(self).collections@.last().color == color
                && final(self).collections@.last().pdf_ids@.len() == 0,
            r is Err ==> final(self).collections@ == old(self).collections@,
    {
        if is_blank(name.as_str()) {
            return Err(CollectionError::EmptyName);
        }
        if self.name_in_use(&name, None) {
            return Err(CollectionError::DuplicateName);
        }
        let ghost before = self.collections@;
        self.collections.push(Collection { id, name, color, pdf_ids: Vec::new() });
        assert(self.collections@.drop_last() =~= before);
        Ok(())
    }

    /// Adds an empty collection whose identity is the current time; refused
    /// as `create_with_id` refuses.
    pub fn create_collection(&mut self, name: String, color: String) -> (r: Result<
        (),
        CollectionError,
    >)
        ensures
            blank(name@) ==> r == Err::<(), CollectionError>(CollectionError::EmptyName),
            !blank(name@) && has_name(old(self).collections@, name@) ==> r == Err::<
                (),
                CollectionError,
            >(CollectionError::DuplicateName),
            !blank(name@) && !has_name(old(self).collections@, name@) ==> r is Ok,
            r is Ok ==> final(self).collections@.len() == old(self).collections@.len() + 1
                && final(self).collections@.drop_last() == old(self).collections@
                && final(self).collections@.last().name == name
                && final(self).collections@.last().color == color
                && final(self).collections@.last().pdf_ids@.len() == 0,
            r is Err ==> final(self).collections@ == old(self).collections@,
    {
        let id = utc_millis_stamp();
        self.create_with_id(id, name, color)
    }

    /// Renames collection `id` to `new_name`. A blank name, a name that
    /// another collection has, and an unknown identity are refused, in that
    /// order.
    pub fn rename_collection(&mut self, id: &String, new_name: String) -> (r: Result<
        (),
        CollectionError,
    >)
        ensures
            blank(new_name@) ==> r == Err::<(), CollectionError>(CollectionError::EmptyName),
            !blank(new_name@) && name_taken(old(self).collections@, new_name@, id@) ==> r == Err::<
                (),
                CollectionError,
            >(CollectionError::DuplicateName),
            !blank(new_name@) && !name_taken(old(self).collections@, new_name@, id@)
                && !has_collection(old(self).collections@, id@) ==> r == Err::<(), CollectionError>(
                CollectionError::NotFound,
            ),
            !blank(new_name@) && !name_taken(old(self).collections@, new_name@, id@)
                && has_collection(old(self).collections@, id@) ==> r is Ok,
            r is Ok ==> exists|i: int|
                first_with_id(old(self).collections@, id@, i) && final(self).collections@ == old(self).collections@.update(i, Collection { name: new_name, ..old(self).collections@[i] }),
            r is Err ==> final(self).collections@ == old(self).collections@,
    {
        if is_blank(new_name.as_str()) {
            return Err(CollectionError::EmptyName);
        }
        if self.name_in_use(&new_name, Some(id)) {
            return Err(CollectionError::DuplicateName);
        }
        match position_of(&self.collections, id) {
            None => Err(CollectionError::NotFound),
            Some(i) => {
                let ghost before = self.collections@;
                self.collections[i].name = new_name;
                assert(self.collections@ =~= before.update(
                    i as int,
                    Collection { name: new_name, ..before[i as int] },
                ));
                Ok(())
            },
        }
    }

    /// Deletes every collection with identity `id`; refused when there is none.
    pub fn delete_collection(&mut self, id: &String) -> (r: Result<(), CollectionError>)
        ensures
            has_collection(old(self).collections@, id@) <==> r is Ok,
            r is Ok ==> final(self).collections@ == old(self).collections@.filter(
                |c: Collection| c.id@ != id@,
            ),
            r is Err ==> r == Err::<(), CollectionError>(CollectionError::NotFound)
                && final(self).collections@ == old(self).collections@,
    {
        if position_of(&self.collections, id).is_none() {
            return Err(CollectionError::NotFound);
        }
        let ghost s = self.collections@;
        let ghost keep = |c: Collection| c.id@ != id@;
        let mut rest: Vec<Collection> = Vec::new();
        std::mem::swap(&mut self.collections, &mut rest);
        let mut kept: Vec<Collection> = Vec::new();
        let ghost n = s.len();
        assert(n == rest.len());
        let mut i: usize = 0;
        while rest.len() > 0
            invariant
                i + rest@.len() == n,
                n == s.len(),
                n <= usize::MAX,
                rest@ == s.subrange(i as int, n as int),
                keep == (|c: Collection| c.id@ != id@),
                kept@ == s.subrange(0, i as int).filter(keep),
            decreases rest@.len(),
        {
            let c = rest.remove(0);
            assert(c == s[i as int]);
            assert(rest@ =~= s.subrange(i + 1, n as int));
            let ghost pre = s.subrange(0, i + 1);
            assert(pre.drop_last() =~= s.subrange(0, i as int));
            assert(pre.last() == c);
            proof {
                assert(pre.filter(keep) == if keep(c) {
                    pre.drop_last().filter(keep).push(c)
                } else {
                    pre.drop_last().filter(keep)
                }) by {
                    reveal(Seq::filter);
                }
            }
            if !text_eq(&c.id, id) {
                kept.push(c);
            }
            i = i + 1;
        }
        assert(s.subrange(0, n as int) =~= s);
        self.collections = kept;
        Ok(())
    }

    /// Gives collection `id` the colour `new_color`.
    pub fn change_collection_color(&mut self, id: &String, new_color: String) -> (r: Result<
        (),
        CollectionError,
    >)
        ensures
            has_collection(old(self).collections@, id@) <==> r is Ok,
            r is Ok ==> exists|i: int|
                first_with_id(old(self).collections@, id@, i) && final(self).collections@ == old(self).collections@.update(i, Collection { color: new_color, ..old(self).collections@[i] }),
            r is Err ==> r == Err::<(), CollectionError>(CollectionError::NotFound)
                && final(self).collections@ == old(self).collections@,
    {
        match position_of(&self.collections, id) {
            None => Err(CollectionError::NotFound),
            Some(i) => {
                let ghost before = self.collections@;
                self.collections[i].color = new_color;
                assert(self.collections@ =~= before.update(
                    i as int,
                    Collection { color: new_color, ..before[i as int] },
                ));
                Ok(())
            },
        }
    }

    /// Puts document `pdf_id` in collection `collection_id`.
    pub fn add_pdf_to_collection(&mut self, collection_id: &String, pdf_id: String) -> (r: Result<
        (),
        CollectionError,
    >)
        ensures
            has_collection(old(self).collections@, collection_id@) <==> r is Ok,
            r is Ok ==> exists|i: int|
                first_with_id(old(self).collections@, collection_id@, i) && final(self).collections@.len() == old(self).collections@.len() && (forall|k: int|
                    0 <= k < old(self).collections@.len() && k != i ==> final(self).collections@[k]
                        == old(self).collections@[k]) && members(final(self).collections@[i])
                    == members(old(self).collections@[i]).insert(pdf_id@)
                    && final(self).collections@[i].id == old(self).collections@[i].id
                    && final(self).collections@[i].name == old(self).collections@[i].name
                    && final(self).collections@[i].color == old(self).collections@[i].color,
            r is Err ==> r == Err::<(), CollectionError>(CollectionError::NotFound)
                && final(self).collections@ == old(self).collections@,
    {
        match position_of(&self.collections, collection_id) {
            None => Err(CollectionError::NotFound),
            Some(i) => {
                self.collections[i].add_pdf(pdf_id);
                Ok(())
            },
        }
    }

    /// Takes document `pdf_id` out of collection `collection_id`.
    pub fn remove_pdf_from_collection(&mut self, collection_id: &String, pdf_id: &String) -> (r:
        Result<(), CollectionError>)
        ensures
            has_collection(old(self).collections@, collection_id@) <==> r is Ok,
            r is Ok ==> exists|i: int|
                first_with_id(old(self).collections@, collection_id@, i) && final(self).collections@.len() == old(self).collections@.len() && (forall|k: int|
                    0 <= k < old(self).collections@.len() && k != i ==> final(self).collections@[k]
                        == old(self).collections@[k]) && members(final(self).collections@[i])
                    == members(old(self).collections@[i]).remove(pdf_id@)
                    && final(self).collections@[i].id == old(self).collections@[i].id
                    && final(self).collections@[i].name == old(self).collections@[i].name
                    && final(self).collections@[i].color == old(self).collections@[i].color,
            r is Err ==> r == Err::<(), CollectionError>(CollectionError::NotFound)
                && final(self).collections@ == old(self).collections@,
    {
        match position_of(&self.collections, collection_id) {
            None => Err(CollectionError::NotFound),
            Some(i) => {
                self.collections[i].remove_pdf(pdf_id);
                Ok(())
            },
        }
    }

    /// Takes document `pdf_id` out of collection `collection_id` when it is
    /// in, puts it in otherwise; `Ok(true)` when it was put in.
    pub fn toggle_pdf_in_collection(&mut self, collection_id: &String, pdf_id: String) -> (r:
        Result<bool, CollectionError>)
        ensures
            has_collection(old(self).collections@, collection_id@) <==> r is Ok,
            r matches Ok(added) ==> exists|i: int|
                first_with_id(old(self).collections@, collection_id@, i) && added == !members(
                    old(self).collections@[i],
                ).contains(pdf_id@) && final(self).collections@.len() == old(self).collections@.len() && (forall|k: int|
                    0 <= k < old(self).collections@.len() && k != i ==> final(self).collections@[k]
                        == old(self).collections@[k]) && members(final(self).collections@[i]) == (
                if added {
                    members(old(self).collections@[i]).insert(pdf_id@)
                } else {
                    members(old(self).collections@[i]).remove(pdf_id@)
                }) && final(self).collections@[i].id == old(self).collections@[i].id
                    && final(self).collections@[i].name == old(self).collections@[i].name
                    && final(self).collections@[i].color == old(self).collections@[i].color,
            r is Err ==> r == Err::<bool, CollectionError>(CollectionError::NotFound)
                && final(self).collections@ == old(self).collections@,
    {
        match position_of(&self.collections, collection_id) {
            None => Err(CollectionError::NotFound),
            Some(i) => {
                if self.collections[i].contains_pdf(&pdf_id) {
                    self.collections[i].remove_pdf(&pdf_id);
                    Ok(false)
                } else {
                    self.collections[i].add_pdf(pdf_id);
                    Ok(true)
                }
            },
        }
    }

    /// Takes document `pdf_id` out of every collection; the number of
    /// collections it was in.
    pub fn remove_pdf_from_all_collections(&mut self, pdf_id: &String) -> (r: usize)
        ensures
            r == count_holding(old(self).collections@, pdf_id@),
            final(self).collections@.len() == old(self).collections@.len(),
            forall|k: int|
                0 <= k < old(self).collections@.len() ==> members(
                    #[trigger] final(self).collections@[k],
                ) == members(old(self).collections@[k]).remove(pdf_id@)
                    && final(self).collections@[k].id == old(self).collections@[k].id
                    && final(self).collections@[k].name == old(self).collections@[k].name
                    && final(self).collections@[k].color == old(self).collections@[k].color,
    {
        let ghost s = self.collections@;
        let n = self.collections.len();
        let mut removed: usize = 0;
        let mut i: usize = 0;
        while i < n
            invariant
                n == s.len(),
                self.collections@.len() == n,
                i <= n,
                removed <= i,
                removed == count_holding(s.subrange(0, i as int), pdf_id@),
                forall|k: int|
                    0 <= k < i ==> members(#[trigger] self.collections@[k]) == members(s[k]).remove(
                        pdf_id@,
                    ) && self.collections@[k].id == s[k].id && self.collections@[k].name
                        == s[k].name && self.collections@[k].color == s[k].color,
                forall|k: int| i <= k < n ==> self.collections@[k] == s[k],
            decreases n - i,
        {
            let ghost pre = s.subrange(0, i + 1);
            assert(pre.drop_last() =~= s.subrange(0, i as int));
            assert(pre.last() == s[i as int]);
            if self.collections[i].remove_pdf(pdf_id) {
                removed = removed + 1;
            }
            i = i + 1;
        }
        assert(s.subrange(0, n as int) =~= s);
        removed
    }
}

} // verus!

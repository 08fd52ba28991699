use vstd::prelude::*;
use crate::text::{blank, is_blank};

verus! {

/// A labelled mark on one page of a document.
pub struct PdfBookmark {
    pub page_number: u32,
    pub label: String,
}

/// Why a bookmark operation was refused; the list is then unchanged.
#[derive(Debug, PartialEq, Eq, Structural)]
pub enum BookmarkError {
    /// The label is empty or only white space.
    EmptyLabel,
    /// No bookmark is on the page asked for.
    NotFound,
    /// The page already has a bookmark.
    DuplicatePage,
}

/// Whether some bookmark is on page `page`.
pub open spec fn has_bookmark(s: Seq<PdfBookmark>, page: u32) -> bool {
    exists|i: int| 0 <= i < s.len() && s[i].page_number == page
}

/// At most one bookmark per page.
pub open spec fn one_per_page(s: Seq<PdfBookmark>) -> bool {
    forall|i: int, j: int|
        0 <= i < s.len() && 0 <= j < s.len() && i != j ==> s[i].page_number != s[j].page_number
}

/// The bookmarks that are not on page `page`, in their order.
pub open spec fn without_page(s: Seq<PdfBookmark>, page: u32) -> Seq<PdfBookmark> {
    s.filter(|b: PdfBookmark| b.page_number != page)
}

/// Position of the first bookmark on page `page`.
fn position_of(bookmarks: &Vec<PdfBookmark>, page: u32) -> (r: Option<usize>)
    ensures
        r matches Some(i) ==> i < bookmarks@.len() && bookmarks@[i as int].page_number == page
            && forall|k: int| 0 <= k < i ==> bookmarks@[k].page_number != page,
        r is None <==> !has_bookmark(bookmarks@, page),
{
    let mut i: usize = 0;
    while i < bookmarks.len()
        invariant
            i <= bookmarks@.len(),
            forall|k: int| 0 <= k < i ==> bookmarks@[k].page_number != page,
        decreases bookmarks@.len() - i,
    {
        if bookmarks[i].page_number == page {
            return Some(i);
        }
        i = i + 1;
    }
    assert(!has_bookmark(bookmarks@, page)) by {
        if has_bookmark(bookmarks@, page) {
            let k = choose|k: int| 0 <= k < bookmarks@.len() && bookmarks@[k].page_number == page;
            assert(bookmarks@[k].page_number == page);
        }
    }
    None
}

/// Adds a bookmark on page `page_number`. A blank label is refused, and so
/// is a page that already has a bookmark: a page holds at most one.
pub fn add_bookmark(bookmarks: &mut Vec<PdfBookmark>, page_number: u32, label: String) -> (r:
    Result<(), BookmarkError>)
    ensures
        blank(label@) ==> r == Err::<(), BookmarkError>(BookmarkError::EmptyLabel),
        !blank(label@) && has_bookmark(old(bookmarks)@, page_number) ==> r == Err::<
            (),
            BookmarkError,
        >(BookmarkError::DuplicatePage),
        !blank(label@) && !has_bookmark(old(bookmarks)@, page_number) ==> r is Ok,
        r is Ok ==> final(bookmarks)@ == old(bookmarks)@.push(PdfBookmark { page_number, label }),
        r is Err ==> final(bookmarks)@ == old(bookmarks)@,
{
    if is_blank(label.as_str()) {
        return Err(BookmarkError::EmptyLabel);
    }
    if position_of(bookmarks, page_number).is_some() {
        return Err(BookmarkError::DuplicatePage);
    }
    bookmarks.push(PdfBookmark { page_number, label });
    Ok(())
}

/// Gives the bookmark on page `page_number` the label `label`, or keeps its
/// label when `label` is `None`.
pub fn update_bookmark(bookmarks: &mut Vec<PdfBookmark>, label: Option<String>, page_number: u32) -> (r:
    Result<(), BookmarkError>)
    ensures
        !has_bookmark(old(bookmarks)@, page_number) ==> r == Err::<(), BookmarkError>(
            BookmarkError::NotFound,
        ),
        has_bookmark(old(bookmarks)@, page_number) && (label matches Some(l) && blank(l@)) ==> r
            == Err::<(), BookmarkError>(BookmarkError::EmptyLabel),
        has_bookmark(old(bookmarks)@, page_number) && !(label matches Some(l) && blank(l@)) ==> r
            is Ok,
        r is Ok && label is None ==> final(bookmarks)@ == old(bookmarks)@,
        r is Ok && label is Some ==> exists|i: int|
            0 <= i < old(bookmarks)@.len() && old(bookmarks)@[i].page_number == page_number
                && (forall|k: int| 0 <= k < i ==> old(bookmarks)@[k].page_number != page_number)
                && final(bookmarks)@ == old(bookmarks)@.update(
                i,
                PdfBookmark { page_number, label: label->Some_0 },
            ),
        r is Err ==> final(bookmarks)@ == old(bookmarks)@,
{
    match position_of(bookmarks, page_number) {
        None => Err(BookmarkError::NotFound),
        Some(i) => {
            match label {
                None => Ok(()),
                Some(l) => {
                    if is_blank(l.as_str()) {
                        return Err(BookmarkError::EmptyLabel);
                    }
                    let ghost before = bookmarks@;
                    bookmarks.set(i, PdfBookmark { page_number, label: l });
                    assert(before[i as int].page_number == page_number);
                    Ok(())
                },
            }
        },
    }
}

/// Removes every bookmark on page `page_number`; refused when there is none.
pub fn delete_bookmark(bookmarks: &mut Vec<PdfBookmark>, page_number: u32) -> (r: Result<
    (),
    BookmarkError,
>)
    ensures
        has_bookmark(old(bookmarks)@, page_number) <==> r is Ok,
        r is Ok ==> final(bookmarks)@ == without_page(old(bookmarks)@, page_number),
        r is Err ==> r == Err::<(), BookmarkError>(BookmarkError::NotFound) && final(bookmarks)@
            == old(bookmarks)@,
{
    if position_of(bookmarks, page_number).is_none() {
        return Err(BookmarkError::NotFound);
    }
    let ghost s = bookmarks@;
    let mut kept: Vec<PdfBookmark> = Vec::new();
    let mut rest: Vec<PdfBookmark> = Vec::new();
    std::mem::swap(bookmarks, &mut rest);
    let ghost n = s.len();
    assert(n == rest.len());
    let mut i: usize = 0;
    while rest.len() > 0
        invariant
            i + rest@.len() == n,
            n == s.len(),
            n <= usize::MAX,
            rest@ == s.subrange(i as int, n as int),
            kept@ == without_page(s.subrange(0, i as int), page_number),
        decreases rest@.len(),
    {
        let ghost before = rest@;
        let b = rest.remove(0);
        assert(b == s[i as int]);
        assert(rest@ =~= s.subrange(i + 1, n as int));
        let ghost pre = s.subrange(0, i + 1);
        assert(pre.drop_last() =~= s.subrange(0, i as int));
        assert(pre.last() == b);
        proof {
            assert(without_page(pre, page_number) == if b.page_number != page_number {
                without_page(pre.drop_last(), page_number).push(b)
            } else {
                without_page(pre.drop_last(), page_number)
            }) by {
                reveal(Seq::filter);
            }
        }
        if b.page_number != page_number {
            kept.push(b);
        }
        i = i + 1;
    }
    assert(s.subrange(0, n as int) =~= s);
    *bookmarks = kept;
    Ok(())
}

/// One bookmark per page holds after any mix of adds, updates and deletes:
/// adding on a page that already has a bookmark is refused, so the second
/// never enters, and an update replaces the bookmark of its page in place.
pub proof fn lemma_one_bookmark_per_page(s: Seq<PdfBookmark>, page: u32, label: String, i: int)
    requires
        one_per_page(s),
    ensures
        !has_bookmark(s, page) ==> one_per_page(s.push(PdfBookmark { page_number: page, label })),
        0 <= i < s.len() ==> one_per_page(
            s.update(i, PdfBookmark { page_number: s[i].page_number, label }),
        ),
        one_per_page(without_page(s, page)),
{
    let t = s.push(PdfBookmark { page_number: page, label });
    if !has_bookmark(s, page) {
        assert forall|a: int, b: int|
            0 <= a < t.len() && 0 <= b < t.len() && a != b implies t[a].page_number
            != t[b].page_number by {
            if a == s.len() {
                assert(s[b].page_number != page);
            } else if b == s.len() {
                assert(s[a].page_number != page);
            }
        }
    }
    if 0 <= i < s.len() {
        let u = s.update(i, PdfBookmark { page_number: s[i].page_number, label });
        assert forall|a: int, b: int|
            0 <= a < u.len() && 0 <= b < u.len() && a != b implies u[a].page_number
            != u[b].page_number by {
            assert(u[a].page_number == s[a].page_number);
            assert(u[b].page_number == s[b].page_number);
        }
    }
    lemma_filter_one_per_page(s, page);
}

proof fn lemma_filter_one_per_page(s: Seq<PdfBookmark>, page: u32)
    requires
        one_per_page(s),
    ensures
        one_per_page(without_page(s, page)),
    decreases s.len(),
{
    reveal(Seq::filter);
    if s.len() > 0 {
        let init = s.drop_last();
        assert(one_per_page(init)) by {
            assert forall|a: int, b: int|
                0 <= a < init.len() && 0 <= b < init.len() && a != b implies init[a].page_number
                != init[b].page_number by {
                assert(init[a] == s[a] && init[b] == s[b]);
            }
        }
        lemma_filter_one_per_page(init, page);
        let f = without_page(init, page);
        let last = s.last();
        if last.page_number != page {
            assert(without_page(s, page) == f.push(last));
            assert forall|k: int| 0 <= k < f.len() implies f[k].page_number != last.page_number by {
                assert(f.contains(f[k]));
                init.lemma_filter_contains_rev(|x: PdfBookmark| x.page_number != page, f[k]);
                assert(init.contains(f[k]));
                let j = choose|j: int| 0 <= j < init.len() && init[j] == f[k];
                assert(s[j] == init[j]);
                assert(s[s.len() - 1] == last);
            }
            let t = f.push(last);
            assert forall|a: int, b: int|
                0 <= a < t.len() && 0 <= b < t.len() && a != b implies t[a].page_number
                != t[b].page_number by {
                if a == f.len() {
                    assert(t[b] == f[b]);
                } else if b == f.len() {
                    assert(t[a] == f[a]);
                } else {
                    assert(t[a] == f[a] && t[b] == f[b]);
                }
            }
        } else {
            assert(without_page(s, page) == f);
        }
    }
}

} // verus!

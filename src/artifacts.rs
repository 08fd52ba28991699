use vstd::prelude::*;
use crate::catalog::PdfEntry;
use crate::decimal::parse_u32_spec;
use crate::pages::{PageMap, decode_keys, keyed_view, all_keys_parse, page_map, pages_increasing};

verus! {

/// The tool a stroke was drawn with.
#[derive(Clone, Copy, Debug, PartialEq, Eq, Structural)]
pub enum DrawingToolType {
    Pen,
    Highlighter,
    Eraser,
}

/// A document's entry together with its known page sizes, as a viewer
/// opens it.
pub struct LoadPdfResponse<D> {
    pub pdf_entry: PdfEntry,
    pub pdf_pages_dims: PdfPagesDimensions<D>,
}

impl<D> LoadPdfResponse<D> {
    pub fn new(pdf_entry: PdfEntry, pdf_pages_dims: PdfPagesDimensions<D>) -> (r: Self)
        ensures
            r.pdf_entry == pdf_entry,
            r.pdf_pages_dims == pdf_pages_dims,
    {
        LoadPdfResponse { pdf_entry, pdf_pages_dims }
    }
}

/// Page number to the path of that page's rendered thumbnail.
pub struct PdfPagesThumbnails {
    inner: PageMap<String>,
}

/// Page number to that page's measured size; `D` is the size record.
pub struct PdfPagesDimensions<D> {
    inner: PageMap<D>,
}

/// Page number to the strokes drawn on that page, oldest first; `S` is the
/// stroke record.
pub struct PdfStrokes<S> {
    inner: PageMap<Vec<S>>,
}

impl View for PdfPagesThumbnails {
    type V = Seq<(u32, String)>;

    closed spec fn view(&self) -> Seq<(u32, String)> {
        self.inner@
    }
}

impl<D> View for PdfPagesDimensions<D> {
    type V = Seq<(u32, D)>;

    closed spec fn view(&self) -> Seq<(u32, D)> {
        self.inner@
    }
}

impl<S> View for PdfStrokes<S> {
    type V = Seq<(u32, Vec<S>)>;

    closed spec fn view(&self) -> Seq<(u32, Vec<S>)> {
        self.inner@
    }
}

impl PdfPagesThumbnails {
    pub open spec fn wf(&self) -> bool {
        pages_increasing(self@)
    }

    pub open spec fn map(&self) -> Map<u32, String> {
        page_map(self@)
    }

    /// No thumbnails.
    pub fn new() -> (r: Self)
        ensures
            r.wf(),
            r.map() == Map::<u32, String>::empty(),
    {
        PdfPagesThumbnails { inner: PageMap::new() }
    }

    /// Records `path` as the thumbnail of page `page`, replacing an earlier one.
    pub fn insert(&mut self, page: u32, path: String)
        requires
            old(self).wf(),
        ensures
            final(self).wf(),
            final(self).map() == old(self).map().insert(page, path),
    {
        self.inner.insert(page, path);
    }

    /// The thumbnail path of page `page`, if there is one.
    pub fn get(&self, page: u32) -> (r: Option<&String>)
        requires
            self.wf(),
        ensures
            self.map().contains_key(page) ==> r == Some(&self.map()[page]),
            !self.map().contains_key(page) ==> r is None,
    {
        self.inner.get(page)
    }

    /// The underlying page mapping.
    pub fn pages(&self) -> (r: &PageMap<String>)
        ensures
            r@ == self@,
    {
        &self.inner
    }

    /// Reads stored entries; a key that is not a page number is handed back.
    pub fn from_keyed_entries(entries: Vec<(String, String)>) -> (r: Result<Self, String>)
        ensures
            all_keys_parse(keyed_view(entries@)) <==> r is Ok,
            r matches Ok(m) ==> m.wf() && decode_keys(keyed_view(entries@)) == Some(m.map()),
            r matches Err(k) ==> exists|i: int|
                0 <= i < entries@.len() && entries@[i].0@ == k@ && parse_u32_spec(k@) is None,
    {
        match PageMap::from_keyed_entries(entries) {
            Ok(inner) => Ok(PdfPagesThumbnails { inner }),
            Err(k) => Err(k),
        }
    }
}

impl<D> PdfPagesDimensions<D> {
    pub open spec fn wf(&self) -> bool {
        pages_increasing(self@)
    }

    pub open spec fn map(&self) -> Map<u32, D> {
        page_map(self@)
    }

    /// No page sizes.
    pub fn new() -> (r: Self)
        ensures
            r.wf(),
            r.map() == Map::<u32, D>::empty(),
    {
        PdfPagesDimensions { inner: PageMap::new() }
    }

    /// Records the size of page `page`, replacing an earlier one.
    pub fn insert(&mut self, page: u32, dim: D)
        requires
            old(self).wf(),
        ensures
            final(self).wf(),
            final(self).map() == old(self).map().insert(page, dim),
    {
        self.inner.insert(page, dim);
    }

    /// The size of page `page`, if it is known.
    pub fn get(&self, page: u32) -> (r: Option<&D>)
        requires
            self.wf(),
        ensures
            self.map().contains_key(page) ==> r == Some(&self.map()[page]),
            !self.map().contains_key(page) ==> r is None,
    {
        self.inner.get(page)
    }

    /// The pages among `1..=page_count` whose size is not known yet: a
    /// partly extracted document lists the pages still to measure.
    pub fn missing_pages(&self, page_count: u32) -> (r: Vec<u32>)
        requires
            self.wf(),
        ensures
            forall|i: int|
                0 <= i < r@.len() ==> 1 <= #[trigger] r@[i] <= page_count && !self.map().contains_key(
                    r@[i],
                ),
            forall|i: int, j: int| 0 <= i < j < r@.len() ==> r@[i] < r@[j],
            forall|q: u32| 1 <= q <= page_count && !self.map().contains_key(q) ==> r@.contains(q),
    {
        self.inner.missing_pages(page_count)
    }

    /// Whether the size of every page of a document of `page_count` pages is
    /// known; `false` when the page count is not known. When it is `false`,
    /// the sizes are to be extracted now.
    pub fn covers_all(&self, page_count: Option<u32>) -> (r: bool)
        requires
            self.wf(),
        ensures
            r == (page_count matches Some(n) && forall|q: u32|
                1 <= q <= n ==> #[trigger] self.map().contains_key(q)),
    {
        match page_count {
            None => false,
            Some(n) => {
                let missing = self.missing_pages(n);
                if missing.len() == 0 {
                    assert forall|q: u32| 1 <= q <= n implies #[trigger] self.map().contains_key(q) by {
                        if !self.map().contains_key(q) {
                            assert(missing@.contains(q));
                        }
                    }
                    true
                } else {
                    assert(1 <= missing@[0] <= n && !self.map().contains_key(missing@[0]));
                    false
                }
            },
        }
    }

    /// The underlying page mapping.
    pub fn pages(&self) -> (r: &PageMap<D>)
        ensures
            r@ == self@,
    {
        &self.inner
    }

    /// Reads stored entries; a key that is not a page number is handed back.
    pub fn from_keyed_entries(entries: Vec<(String, D)>) -> (r: Result<Self, String>)
        ensures
            all_keys_parse(keyed_view(entries@)) <==> r is Ok,
            r matches Ok(m) ==> m.wf() && decode_keys(keyed_view(entries@)) == Some(m.map()),
            r matches Err(k) ==> exists|i: int|
                0 <= i < entries@.len() && entries@[i].0@ == k@ && parse_u32_spec(k@) is None,
    {
        match PageMap::from_keyed_entries(entries) {
            Ok(inner) => Ok(PdfPagesDimensions { inner }),
            Err(k) => Err(k),
        }
    }
}

impl<S> PdfStrokes<S> {
    pub open spec fn wf(&self) -> bool {
        pages_increasing(self@)
    }

    pub open spec fn map(&self) -> Map<u32, Vec<S>> {
        page_map(self@)
    }

    /// No strokes.
    pub fn new() -> (r: Self)
        ensures
            r.wf(),
            r.map() == Map::<u32, Vec<S>>::empty(),
    {
        PdfStrokes { inner: PageMap::new() }
    }

    /// Appends `stroke` to the strokes of page `page`; earlier strokes stay.
    pub fn insert(&mut self, page: u32, stroke: S)
        requires
            old(self).wf(),
        ensures
            final(self).wf(),
            final(self).map().dom() == old(self).map().dom().insert(page),
            forall|q: u32|
                q != page && old(self).map().contains_key(q) ==> final(self).map()[q] == old(self).map()[q],
            final(self).map()[page]@ == (if old(self).map().contains_key(page) {
                old(self).map()[page]@
            } else {
                Seq::<S>::empty()
            }).push(stroke),
    {
        self.inner.push_to(page, stroke);
    }

    /// The strokes of page `page`, oldest first, if it has any.
    pub fn get(&self, page: u32) -> (r: Option<&Vec<S>>)
        requires
            self.wf(),
        ensures
            self.map().contains_key(page) ==> r == Some(&self.map()[page]),
            !self.map().contains_key(page) ==> r is None,
    {
        self.inner.get(page)
    }

    /// The underlying page mapping.
    pub fn pages(&self) -> (r: &PageMap<Vec<S>>)
        ensures
            r@ == self@,
    {
        &self.inner
    }

    /// Reads stored entries; a key that is not a page number is handed back.
    pub fn from_keyed_entries(entries: Vec<(String, Vec<S>)>) -> (r: Result<Self, String>)
        ensures
            all_keys_parse(keyed_view(entries@)) <==> r is Ok,
            r matches Ok(m) ==> m.wf() && decode_keys(keyed_view(entries@)) == Some(m.map()),
            r matches Err(k) ==> exists|i: int|
                0 <= i < entries@.len() && entries@[i].0@ == k@ && parse_u32_spec(k@) is None,
    {
        match PageMap::from_keyed_entries(entries) {
            Ok(inner) => Ok(PdfStrokes { inner }),
            Err(k) => Err(k),
        }
    }
}

} // verus!

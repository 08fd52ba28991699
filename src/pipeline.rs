use vstd::prelude::*;
use crate::artifacts::{PdfPagesDimensions, PdfPagesThumbnails};

verus! {

/// Which artifacts an extraction run produces.
#[derive(Clone, Copy, Debug, PartialEq, Eq, Structural)]
pub struct ExtractOptions {
    pub thumbnail: bool,
    pub dims: bool,
}

/// What the run asks its driver to do next.
#[derive(Clone, Copy, Debug, PartialEq, Eq, Structural)]
pub enum Action {
    /// Measure page `p` and report its size.
    Measure(u32),
    /// Write the whole dimensions accumulator to its file, then notify
    /// observers with it; page `p` was the last added.
    CommitDimensions(u32),
    /// Render page `p` to a new thumbnail image file and report its path.
    RenderThumbnail(u32),
    /// Write the whole thumbnails accumulator to its file, then notify
    /// observers with it; page `p` was the last added.
    CommitThumbnails(u32),
    /// Every page has been processed.
    Finished,
    /// The run stopped at page `p` after a failure; what was committed for
    /// earlier pages stays.
    Aborted(u32),
}

/// What the driver reports after doing the action asked of it.
pub enum Event<D> {
    /// The page was measured; its size.
    Measured(D),
    /// The thumbnail image was written; its path.
    Rendered(String),
    /// The accumulator was written and observers were notified.
    Committed,
    /// The action failed.
    Failed,
}

/// The page numbers `lo <= p < hi`.
pub open spec fn page_range(lo: int, hi: int) -> Set<u32> {
    Set::new(|q: u32| lo <= q && q < hi)
}

/// The action after page `p` is complete.
pub open spec fn after_page(n: u32, p: u32) -> Action {
    if p < n {
        Action::Measure((p + 1) as u32)
    } else {
        Action::Finished
    }
}

/// The first action of a run over `n` pages.
pub open spec fn first_action(o: ExtractOptions, n: u32) -> Action {
    if (!o.dims && !o.thumbnail) || n == 0 {
        Action::Finished
    } else {
        Action::Measure(1)
    }
}

/// The action that follows `a` when the driver reports `e`. An event that
/// does not answer the pending action changes nothing.
pub open spec fn next_action<D>(o: ExtractOptions, n: u32, a: Action, e: Event<D>) -> Action {
    match (a, e) {
        (Action::Measure(p), Event::Measured(_)) => if o.dims {
            Action::CommitDimensions(p)
        } else {
            Action::RenderThumbnail(p)
        },
        (Action::CommitDimensions(p), Event::Committed) => if o.thumbnail {
            Action::RenderThumbnail(p)
        } else {
            after_page(n, p)
        },
        (Action::RenderThumbnail(p), Event::Rendered(_)) => Action::CommitThumbnails(p),
        (Action::CommitThumbnails(p), Event::Committed) => after_page(n, p),
        (Action::Measure(p), Event::Failed) => Action::Aborted(p),
        (Action::CommitDimensions(p), Event::Failed) => Action::Aborted(p),
        (Action::RenderThumbnail(p), Event::Failed) => Action::Aborted(p),
        (Action::CommitThumbnails(p), Event::Failed) => Action::Aborted(p),
        _ => a,
    }
}

/// The dimensions accumulator after `a` meets `e`: a measured size is added
/// when dimensions are requested.
pub open spec fn next_dims<D>(o: ExtractOptions, a: Action, m: Map<u32, D>, e: Event<D>) -> Map<
    u32,
    D,
> {
    match (a, e) {
        (Action::Measure(p), Event::Measured(d)) => if o.dims {
            m.insert(p, d)
        } else {
            m
        },
        _ => m,
    }
}

/// The thumbnails accumulator after `a` meets `e`: a rendered path is added.
pub open spec fn next_thumbs<D>(a: Action, m: Map<u32, String>, e: Event<D>) -> Map<u32, String> {
    match (a, e) {
        (Action::RenderThumbnail(p), Event::Rendered(path)) => m.insert(p, path),
        _ => m,
    }
}

/// How many pages have their dimensions committed after `a` meets `e`.
pub open spec fn next_dims_saved<D>(a: Action, saved: u32, e: Event<D>) -> u32 {
    match (a, e) {
        (Action::CommitDimensions(p), Event::Committed) => p,
        _ => saved,
    }
}

/// How many pages have their thumbnails committed after `a` meets `e`.
pub open spec fn next_thumbs_saved<D>(a: Action, saved: u32, e: Event<D>) -> u32 {
    match (a, e) {
        (Action::CommitThumbnails(p), Event::Committed) => p,
        _ => saved,
    }
}

/// Pages covered by an accumulator of a requested kind once pages `1..=k`
/// are in it, or no pages for a kind not requested.
pub open spec fn covered(requested: bool, k: int) -> Set<u32> {
    if requested {
        page_range(1, k + 1)
    } else {
        Set::empty()
    }
}

/// How the accumulators and commit counts stand for each pending action.
pub open spec fn run_invariant(
    o: ExtractOptions,
    n: u32,
    a: Action,
    dims: Set<u32>,
    thumbs: Set<u32>,
    dims_saved: u32,
    thumbs_saved: u32,
) -> bool {
    match a {
        Action::Measure(p) => {
            &&& 1 <= p <= n
            &&& (o.dims || o.thumbnail)
            &&& dims == covered(o.dims, p - 1)
            &&& thumbs == covered(o.thumbnail, p - 1)
            &&& dims_saved == (if o.dims { p - 1 } else { 0 })
            &&& thumbs_saved == (if o.thumbnail { p - 1 } else { 0 })
        },
        Action::CommitDimensions(p) => {
            &&& 1 <= p <= n
            &&& o.dims
            &&& dims == page_range(1, p + 1)
            &&& thumbs == covered(o.thumbnail, p - 1)
            &&& dims_saved == p - 1
            &&& thumbs_saved == (if o.thumbnail { p - 1 } else { 0 })
        },
        Action::RenderThumbnail(p) => {
            &&& 1 <= p <= n
            &&& o.thumbnail
            &&& dims == covered(o.dims, p as int)
            &&& thumbs == page_range(1, p as int)
            &&& dims_saved == (if o.dims { p as int } else { 0 })
            &&& thumbs_saved == p - 1
        },
        Action::CommitThumbnails(p) => {
            &&& 1 <= p <= n
            &&& o.thumbnail
            &&& dims == covered(o.dims, p as int)
            &&& thumbs == page_range(1, p + 1)
            &&& dims_saved == (if o.dims { p as int } else { 0 })
            &&& thumbs_saved == p - 1
        },
        Action::Finished => {
            &&& dims == covered(o.dims, n as int)
            &&& thumbs == covered(o.thumbnail, n as int)
            &&& dims_saved == (if o.dims { n as int } else { 0 })
            &&& thumbs_saved == (if o.thumbnail { n as int } else { 0 })
        },
        Action::Aborted(p) => {
            &&& 1 <= p <= n
            &&& dims_saved <= p
            &&& thumbs_saved < p
            &&& (o.dims ==> p - 1 <= dims_saved)
            &&& (o.thumbnail ==> thumbs_saved == p - 1)
            &&& dims_saved <= n
            &&& dims.subset_of(page_range(1, p + 1))
            &&& thumbs.subset_of(page_range(1, p + 1))
            &&& covered(o.dims, dims_saved as int).subset_of(dims)
            &&& covered(o.thumbnail, thumbs_saved as int).subset_of(thumbs)
            &&& (!o.dims ==> dims_saved == 0 && dims.is_empty())
            &&& (!o.thumbnail ==> thumbs_saved == 0 && thumbs.is_empty())
        },
    }
}

/// The dimension mappings announced by notifications when the driver
/// reports `es` in order from pending action `a` with dimensions `m`: one
/// notification, the whole accumulator, for each dimension commit that
/// succeeds.
pub open spec fn dims_notifications<D>(
    o: ExtractOptions,
    n: u32,
    a: Action,
    m: Map<u32, D>,
    es: Seq<Event<D>>,
) -> Seq<Map<u32, D>>
    decreases es.len(),
{
    if es.len() == 0 {
        Seq::empty()
    } else {
        let e = es[0];
        let rest = dims_notifications(
            o,
            n,
            next_action(o, n, a, e),
            next_dims(o, a, m, e),
            es.drop_first(),
        );
        if a is CommitDimensions && e is Committed {
            seq![m] + rest
        } else {
            rest
        }
    }
}

/// The dimensions accumulator after the driver reports `es` in order from
/// pending action `a` with dimensions `m`: each page mapped to the size the
/// driver reported when that page was measured.
pub open spec fn sizes_after<D>(
    o: ExtractOptions,
    n: u32,
    a: Action,
    m: Map<u32, D>,
    es: Seq<Event<D>>,
) -> Map<u32, D>
    decreases es.len(),
{
    if es.len() == 0 {
        m
    } else {
        sizes_after(o, n, next_action(o, n, a, es[0]), next_dims(o, a, m, es[0]), es.drop_first())
    }
}

/// The pending action after the driver reports `es` in order.
pub open spec fn action_after<D>(o: ExtractOptions, n: u32, a: Action, es: Seq<Event<D>>) -> Action
    decreases es.len(),
{
    if es.len() == 0 {
        a
    } else {
        action_after(o, n, next_action(o, n, a, es[0]), es.drop_first())
    }
}

/// How many pages have their dimensions committed after the driver reports
/// `es` in order.
pub open spec fn dims_saved_after<D>(
    o: ExtractOptions,
    n: u32,
    a: Action,
    saved: u32,
    es: Seq<Event<D>>,
) -> u32
    decreases es.len(),
{
    if es.len() == 0 {
        saved
    } else {
        dims_saved_after(
            o,
            n,
            next_action(o, n, a, es[0]),
            next_dims_saved(a, saved, es[0]),
            es.drop_first(),
        )
    }
}

proof fn lemma_step_invariant<D>(
    o: ExtractOptions,
    n: u32,
    a: Action,
    m: Map<u32, D>,
    t: Map<u32, String>,
    ds: u32,
    ts: u32,
    e: Event<D>,
)
    requires
        run_invariant(o, n, a, m.dom(), t.dom(), ds, ts),
    ensures
        run_invariant(
            o,
            n,
            next_action(o, n, a, e),
            next_dims(o, a, m, e).dom(),
            next_thumbs(a, t, e).dom(),
            next_dims_saved(a, ds, e),
            next_thumbs_saved(a, ts, e),
        ),
        m.submap_of(next_dims(o, a, m, e)),
{
    match (a, e) {
        (Action::Measure(p), Event::Measured(d)) => {
            if o.dims {
                assert(m.insert(p, d).dom() =~= page_range(1, p + 1));
                assert(!m.dom().contains(p));
            } else {
                assert(covered(o.thumbnail, p - 1) =~= page_range(1, p as int));
            }
        },
        (Action::CommitDimensions(p), Event::Committed) => {
            if o.thumbnail {
                assert(covered(o.thumbnail, p - 1) =~= page_range(1, p as int));
            } else {
                assert(covered(o.dims, p as int) =~= page_range(1, p + 1));
            }
        },
        (Action::RenderThumbnail(p), Event::Rendered(path)) => {
            assert(t.insert(p, path).dom() =~= page_range(1, p + 1));
        },
        (Action::CommitThumbnails(p), Event::Committed) => {
            assert(covered(o.thumbnail, p as int) =~= page_range(1, p + 1));
        },
        (Action::Measure(p), Event::Failed) => {
            assert(covered(o.dims, p - 1).subset_of(page_range(1, p + 1)));
        },
        _ => {},
    }
}

proof fn lemma_submap_trans<D>(a: Map<u32, D>, b: Map<u32, D>, c: Map<u32, D>)
    requires
        a.submap_of(b),
        b.submap_of(c),
    ensures
        a.submap_of(c),
{
    assert forall|k: u32| #[trigger] a.dom().contains(k) implies c.dom().contains(k) && c[k] == a[k] by {
        assert(b.dom().contains(k));
    }
}

proof fn lemma_notifications_from<D>(
    o: ExtractOptions,
    n: u32,
    a: Action,
    m: Map<u32, D>,
    t: Map<u32, String>,
    ds: u32,
    ts: u32,
    es: Seq<Event<D>>,
)
    requires
        run_invariant(o, n, a, m.dom(), t.dom(), ds, ts),
    ensures
        ({
            let ns = dims_notifications(o, n, a, m, es);
            let fin = sizes_after(o, n, a, m, es);
            &&& forall|k: int| 0 <= k < ns.len() ==> (#[trigger] ns[k]).dom() == page_range(1, ds + k + 2)
            &&& forall|k: int| 0 <= k < ns.len() ==> (#[trigger] ns[k]).submap_of(fin)
            &&& m.submap_of(fin)
            &&& dims_saved_after(o, n, a, ds, es) == ds + ns.len()
            &&& exists|t2: Map<u32, String>, ts2: u32|
                run_invariant(
                    o,
                    n,
                    action_after(o, n, a, es),
                    fin.dom(),
                    t2.dom(),
                    dims_saved_after(o, n, a, ds, es),
                    ts2,
                )
        }),
    decreases es.len(),
{
    if es.len() == 0 {
        assert(action_after(o, n, a, es) == a);
        assert(dims_saved_after(o, n, a, ds, es) == ds);
        assert(sizes_after(o, n, a, m, es) == m);
        assert(m.submap_of(m));
        assert(run_invariant(o, n, action_after(o, n, a, es), m.dom(), t.dom(), dims_saved_after(o, n, a, ds, es), ts));
    } else {
        let e = es[0];
        let a2 = next_action(o, n, a, e);
        let m2 = next_dims(o, a, m, e);
        let t2 = next_thumbs(a, t, e);
        let ds2 = next_dims_saved(a, ds, e);
        let ts2 = next_thumbs_saved(a, ts, e);
        lemma_step_invariant(o, n, a, m, t, ds, ts, e);
        lemma_notifications_from(o, n, a2, m2, t2, ds2, ts2, es.drop_first());
        let rest = dims_notifications(o, n, a2, m2, es.drop_first());
        let all = dims_notifications(o, n, a, m, es);
        let fin = sizes_after(o, n, a, m, es);
        assert(fin == sizes_after(o, n, a2, m2, es.drop_first()));
        lemma_submap_trans(m, m2, fin);
        assert(action_after(o, n, a, es) == action_after(o, n, a2, es.drop_first()));
        assert(dims_saved_after(o, n, a, ds, es) == dims_saved_after(o, n, a2, ds2, es.drop_first()));
        if a is CommitDimensions && e is Committed {
            let p = a->CommitDimensions_0;
            assert(ds2 == p && ds == p - 1);
            assert(all == seq![m] + rest);
            assert forall|k: int| 0 <= k < all.len() implies (#[trigger] all[k]).dom() == page_range(
                1,
                ds + k + 2,
            ) && all[k].submap_of(fin) by {
                if k > 0 {
                    assert(all[k] == rest[k - 1]);
                }
            }
        } else {
            assert(ds2 == ds);
            assert(all == rest);
        }
    }
}

/// Dimension notifications grow page by page. Whatever the driver reports,
/// the k-th notification of a run (counting from 0) announces exactly pages
/// 1 through k + 1; each one holds every page of an earlier one with the
/// same size; and each size announced is the one the driver reported for
/// that page. A run that finishes with dimensions requested has made one
/// notification per page, the last holding pages 1 through N, each with its
/// reported size.
pub proof fn lemma_pipeline_ordering<D>(o: ExtractOptions, n: u32, es: Seq<Event<D>>)
    ensures
        ({
            let ns = dims_notifications(o, n, first_action(o, n), Map::<u32, D>::empty(), es);
            let sizes = sizes_after(o, n, first_action(o, n), Map::<u32, D>::empty(), es);
            &&& forall|k: int| 0 <= k < ns.len() ==> (#[trigger] ns[k]).dom() == page_range(1, k + 2)
            &&& forall|k: int, l: int| 0 <= k <= l < ns.len() ==> (#[trigger] ns[k]).submap_of(#[trigger] ns[l])
            &&& forall|k: int| 0 <= k < ns.len() ==> (#[trigger] ns[k]).submap_of(sizes)
            &&& (action_after(o, n, first_action(o, n), es) is Finished && o.dims) ==> (ns.len()
                == n && sizes.dom() == page_range(1, n + 1) && (n > 0 ==> ns.last() == sizes))
        }),
{
    let a = first_action(o, n);
    let m = Map::<u32, D>::empty();
    let t = Map::<u32, String>::empty();
    assert(page_range(1, 1) =~= Set::<u32>::empty());
    assert(covered(o.dims, 0) =~= Set::<u32>::empty());
    assert(covered(o.thumbnail, 0) =~= Set::<u32>::empty());
    assert(m.dom() =~= Set::<u32>::empty());
    assert(t.dom() =~= Set::<u32>::empty());
    assert(run_invariant(o, n, a, m.dom(), t.dom(), 0, 0));
    lemma_notifications_from(o, n, a, m, t, 0, 0, es);
    let ns = dims_notifications(o, n, a, m, es);
    let sizes = sizes_after(o, n, a, m, es);
    assert forall|k: int, l: int| 0 <= k <= l < ns.len() implies (#[trigger] ns[k]).submap_of(
        #[trigger] ns[l],
    ) by {
        assert(ns[k].dom() == page_range(1, k + 2));
        assert(ns[l].dom() == page_range(1, l + 2));
        assert forall|p: u32| #[trigger] ns[k].dom().contains(p) implies ns[l].dom().contains(p)
            && ns[l][p] == ns[k][p] by {
            assert(ns[l].dom().contains(p));
            assert(ns[k].submap_of(sizes));
            assert(ns[l].submap_of(sizes));
        }
    }
    if action_after(o, n, a, es) is Finished && o.dims && n > 0 {
        let last = ns.last();
        assert(last.submap_of(sizes));
        assert(last.dom() =~= sizes.dom());
        assert(last =~= sizes);
    }
}

/// A run that stops on a failure at page p leaves a consistent prefix: with
/// dimensions requested, the pages whose dimensions were committed (what
/// the dimensions file holds, and what the last notification announced)
/// are exactly pages 1 through k, where k is p - 1 or p; p itself may be
/// short of N, so a later reader must not assume every page is covered.
pub proof fn lemma_partial_extraction<D>(o: ExtractOptions, n: u32, es: Seq<Event<D>>)
    ensures
        ({
            let a0 = first_action(o, n);
            let ns = dims_notifications(o, n, a0, Map::<u32, D>::empty(), es);
            let k = dims_saved_after(o, n, a0, 0, es);
            o.dims ==> (action_after(o, n, a0, es) matches Action::Aborted(p) ==> {
                &&& p - 1 <= k <= p
                &&& ns.len() == k
                &&& (k > 0 ==> ns.last().dom() == page_range(1, k + 1))
            })
        }),
{
    let a = first_action(o, n);
    let m = Map::<u32, D>::empty();
    let t = Map::<u32, String>::empty();
    assert(covered(o.dims, 0) =~= Set::<u32>::empty());
    assert(covered(o.thumbnail, 0) =~= Set::<u32>::empty());
    assert(m.dom() =~= Set::<u32>::empty());
    assert(t.dom() =~= Set::<u32>::empty());
    lemma_notifications_from(o, n, a, m, t, 0, 0, es);
}

/// One extraction run over the pages of a document: it says which action
/// comes next and keeps the accumulators that the commits write out.
pub struct Extraction<D> {
    options: ExtractOptions,
    page_count: u32,
    action: Action,
    dims: PdfPagesDimensions<D>,
    thumbs: PdfPagesThumbnails,
    dims_saved: u32,
    thumbs_saved: u32,
}

impl<D> Extraction<D> {
    pub closed spec fn options(&self) -> ExtractOptions {
        self.options
    }

    pub closed spec fn page_count(&self) -> u32 {
        self.page_count
    }

    /// The pending action.
    pub closed spec fn pending(&self) -> Action {
        self.action
    }

    /// The dimensions accumulator.
    pub closed spec fn dims(&self) -> Map<u32, D> {
        self.dims.map()
    }

    /// The thumbnails accumulator.
    pub closed spec fn thumbs(&self) -> Map<u32, String> {
        self.thumbs.map()
    }

    /// Pages `1..=dims_saved()` are what the dimensions file holds.
    pub closed spec fn dims_saved(&self) -> u32 {
        self.dims_saved
    }

    /// Pages `1..=thumbs_saved()` are what the thumbnails file holds.
    pub closed spec fn thumbs_saved(&self) -> u32 {
        self.thumbs_saved
    }

    /// The accumulators keep their pages in order.
    pub closed spec fn maps_wf(&self) -> bool {
        self.dims.wf() && self.thumbs.wf()
    }

    pub open spec fn wf(&self) -> bool {
        &&& self.maps_wf()
        &&& run_invariant(
            self.options(),
            self.page_count(),
            self.pending(),
            self.dims().dom(),
            self.thumbs().dom(),
            self.dims_saved(),
            self.thumbs_saved(),
        )
    }

    /// A run over `page_count` pages producing what `options` asks for.
    pub fn new(options: ExtractOptions, page_count: u32) -> (r: Self)
        ensures
            r.wf(),
            r.options() == options,
            r.page_count() == page_count,
            r.pending() == first_action(options, page_count),
            r.dims() == Map::<u32, D>::empty(),
            r.thumbs() == Map::<u32, String>::empty(),
            r.dims_saved() == 0,
            r.thumbs_saved() == 0,
    {
        let action = if (!options.dims && !options.thumbnail) || page_count == 0 {
            Action::Finished
        } else {
            Action::Measure(1)
        };
        let r = Extraction {
            options,
            page_count,
            action,
            dims: PdfPagesDimensions::new(),
            thumbs: PdfPagesThumbnails::new(),
            dims_saved: 0,
            thumbs_saved: 0,
        };
        assert(page_range(1, 1) =~= Set::<u32>::empty());
        assert(covered(options.dims, 0) =~= Set::<u32>::empty());
        assert(covered(options.thumbnail, 0) =~= Set::<u32>::empty());
        r
    }

    /// The pending action.
    pub fn action(&self) -> (r: Action)
        ensures
            r == self.pending(),
    {
        self.action
    }

    /// The dimensions accumulator, as a commit writes it out.
    pub fn dimensions(&self) -> (r: &PdfPagesDimensions<D>)
        requires
            self.wf(),
        ensures
            r.wf(),
            r.map() == self.dims(),
    {
        &self.dims
    }

    /// The thumbnails accumulator, as a commit writes it out.
    pub fn thumbnails(&self) -> (r: &PdfPagesThumbnails)
        requires
            self.wf(),
        ensures
            r.wf(),
            r.map() == self.thumbs(),
    {
        &self.thumbs
    }

    /// Takes in what the driver reports about the pending action.
    pub fn step(&mut self, event: Event<D>)
        requires
            old(self).wf(),
        ensures
            final(self).wf(),
            final(self).options() == old(self).options(),
            final(self).page_count() == old(self).page_count(),
            final(self).pending() == next_action(
                old(self).options(),
                old(self).page_count(),
                old(self).pending(),
                event,
            ),
            final(self).dims() == next_dims(
                old(self).options(),
                old(self).pending(),
                old(self).dims(),
                event,
            ),
            final(self).thumbs() == next_thumbs(old(self).pending(), old(self).thumbs(), event),
            final(self).dims_saved() == next_dims_saved(
                old(self).pending(),
                old(self).dims_saved(),
                event,
            ),
            final(self).thumbs_saved() == next_thumbs_saved(
                old(self).pending(),
                old(self).thumbs_saved(),
                event,
            ),
    {
        proof {
            lemma_step_invariant(
                self.options,
                self.page_count,
                self.action,
                self.dims(),
                self.thumbs(),
                self.dims_saved,
                self.thumbs_saved,
                event,
            );
        }
        match (self.action, event) {
            (Action::Measure(p), Event::Measured(d)) => {
                if self.options.dims {
                    self.dims.insert(p, d);
                    self.action = Action::CommitDimensions(p);
                } else {
                    self.action = Action::RenderThumbnail(p);
                }
            },
            (Action::CommitDimensions(p), Event::Committed) => {
                self.dims_saved = p;
                if self.options.thumbnail {
                    self.action = Action::RenderThumbnail(p);
                } else {
                    self.action = self.after(p);
                }
            },
            (Action::RenderThumbnail(p), Event::Rendered(path)) => {
                self.thumbs.insert(p, path);
                self.action = Action::CommitThumbnails(p);
            },
            (Action::CommitThumbnails(p), Event::Committed) => {
                self.thumbs_saved = p;
                self.action = self.after(p);
            },
            (Action::Measure(p), Event::Failed) => {
                self.action = Action::Aborted(p);
            },
            (Action::CommitDimensions(p), Event::Failed) => {
                self.action = Action::Aborted(p);
            },
            (Action::RenderThumbnail(p), Event::Failed) => {
                self.action = Action::Aborted(p);
            },
            (Action::CommitThumbnails(p), Event::Failed) => {
                self.action = Action::Aborted(p);
            },
            _ => {},
        }
    }

    fn after(&self, p: u32) -> (r: Action)
        ensures
            r == after_page(self.page_count(), p),
    {
        if p < self.page_count {
            Action::Measure(p + 1)
        } else {
            Action::Finished
        }
    }
}

/// The documents whose extraction run is in flight: a second run for a
/// document is refused until the first one finishes.
pub struct RunRegistry {
    running: Vec<u64>,
}

impl View for RunRegistry {
    type V = Set<u64>;

    closed spec fn view(&self) -> Set<u64> {
        self.running@.to_set()
    }
}

impl RunRegistry {
    /// Each document is listed once.
    pub closed spec fn wf(&self) -> bool {
        self.running@.no_duplicates()
    }

    /// No run in flight.
    pub fn new() -> (r: Self)
        ensures
            r.wf(),
            r@ == Set::<u64>::empty(),
    {
        let r = RunRegistry { running: Vec::new() };
        assert(r.running@.to_set() =~= Set::<u64>::empty());
        r
    }

    fn position(&self, id: u64) -> (r: Option<usize>)
        ensures
            r matches Some(i) ==> i < self.running@.len() && self.running@[i as int] == id,
            r is None ==> !self@.contains(id),
    {
        let mut i: usize = 0;
        while i < self.running.len()
            invariant
                i <= self.running@.len(),
                forall|k: int| 0 <= k < i ==> self.running@[k] != id,
            decreases self.running@.len() - i,
        {
            if self.running[i] == id {
                return Some(i);
            }
            i = i + 1;
        }
        assert(!self.running@.contains(id));
        None
    }

    /// Whether a run for document `id` is in flight.
    pub fn is_running(&self, id: u64) -> (r: bool)
        ensures
            r == self@.contains(id),
    {
        match self.position(id) {
            Some(i) => {
                assert(self.running@.contains(id));
                true
            },
            None => false,
        }
    }

    /// Records that a run for document `id` starts; `false`, and no change,
    /// when one is already in flight.
    pub fn try_start(&mut self, id: u64) -> (r: bool)
        requires
            old(self).wf(),
        ensures
            final(self).wf(),
            r == !old(self)@.contains(id),
            final(self)@ == old(self)@.insert(id),
    {
        if self.is_running(id) {
            assert(self@.insert(id) =~= self@);
            false
        } else {
            let ghost before = self.running@;
            self.running.push(id);
            proof {
                assert(self.running@ =~= before.push(id));
                assert forall|x: u64| #[trigger] self.running@.contains(x) <==> before.contains(x) || x == id by {
                    if self.running@.contains(x) && x != id {
                        let k = choose|k: int| 0 <= k < self.running@.len() && self.running@[k] == x;
                        assert(before[k] == x);
                    }
                    if before.contains(x) {
                        let k = choose|k: int| 0 <= k < before.len() && before[k] == x;
                        assert(self.running@[k] == x);
                    }
                    if x == id {
                        assert(self.running@[before.len() as int] == x);
                    }
                }
                assert(self.running@.to_set() =~= before.to_set().insert(id));
            }
            true
        }
    }

    /// Records that the run for document `id` is over.
    pub fn finish(&mut self, id: u64)
        requires
            old(self).wf(),
        ensures
            final(self).wf(),
            final(self)@ == old(self)@.remove(id),
    {
        match self.position(id) {
            None => {
                assert(self@.remove(id) =~= self@);
            },
            Some(i) => {
                let ghost before = self.running@;
                self.running.remove(i);
                proof {
                    assert(self.running@ =~= before.remove(i as int));
                    assert forall|x: u64| #[trigger] self.running@.contains(x) <==> before.contains(x) && x != id by {
                        if self.running@.contains(x) {
                            let k = choose|k: int| 0 <= k < self.running@.len() && self.running@[k] == x;
                            if k < i {
                                assert(before[k] == x);
                            } else {
                                assert(before[k + 1] == x);
                                assert(k + 1 != i);
                            }
                        }
                        if before.contains(x) && x != id {
                            let k = choose|k: int| 0 <= k < before.len() && before[k] == x;
                            assert(k != i);
                            if k < i {
                                assert(self.running@[k] == x);
                            } else {
                                assert(self.running@[k - 1] == x);
                            }
                        }
                    }
                    assert forall|a: int, b: int| 0 <= a < b < self.running@.len() implies self.running@[a] != self.running@[b] by {
                        let a2 = if a < i { a } else { a + 1 };
                        let b2 = if b < i { b } else { b + 1 };
                        assert(self.running@[a] == before[a2]);
                        assert(self.running@[b] == before[b2]);
                    }
                    assert(self.running@.to_set() =~= before.to_set().remove(id));
                }
            },
        }
    }
}

} // verus!

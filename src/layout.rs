use vstd::prelude::*;
use crate::decimal::{all_digits, decimal, is_digit, lemma_decimal, lemma_decimal_injective, push_decimal};

verus! {

/// `pdf_<id>`: the folder that a document owns.
pub open spec fn folder_name_spec(id: u64) -> Seq<char> {
    seq!['p', 'd', 'f', '_'] + decimal(id as nat)
}

/// `<id>.pdf`: the document's copy.
pub open spec fn clone_name_spec(id: u64) -> Seq<char> {
    decimal(id as nat) + seq!['.', 'p', 'd', 'f']
}

/// `<id>_cover_<stamp>.jpg`: the document's cover image.
pub open spec fn cover_name_spec(id: u64, stamp: Seq<char>) -> Seq<char> {
    decimal(id as nat) + seq!['_', 'c', 'o', 'v', 'e', 'r', '_'] + stamp + seq!['.', 'j', 'p', 'g']
}

/// `page_<n>_<run>_<stamp>.jpg`: the thumbnail image of page `n` made by
/// extraction run number `run` of its document.
pub open spec fn thumbnail_name_spec(page: u32, run: u64, stamp: Seq<char>) -> Seq<char> {
    seq!['p', 'a', 'g', 'e', '_'] + decimal(page as nat) + seq!['_'] + decimal(run as nat) + seq![
        '_',
    ] + stamp + seq!['.', 'j', 'p', 'g']
}

proof fn lemma_split_at_separator(a: Seq<char>, x: Seq<char>, b: Seq<char>, y: Seq<char>)
    requires
        all_digits(a),
        all_digits(b),
        a + seq!['_'] + x == b + seq!['_'] + y,
    ensures
        a == b,
        x == y,
{
    let l = a + seq!['_'] + x;
    let r = b + seq!['_'] + y;
    if a.len() < b.len() {
        assert(l[a.len() as int] == '_');
        assert(r[a.len() as int] == b[a.len() as int]);
        assert(is_digit(b[a.len() as int]));
    } else if b.len() < a.len() {
        assert(r[b.len() as int] == '_');
        assert(l[b.len() as int] == a[b.len() as int]);
        assert(is_digit(a[b.len() as int]));
    }
    assert(a =~= l.subrange(0, a.len() as int));
    assert(b =~= r.subrange(0, b.len() as int));
    assert(x =~= l.subrange(a.len() as int + 1, l.len() as int));
    assert(y =~= r.subrange(b.len() as int + 1, r.len() as int));
}

/// Thumbnail names never collide: whatever the stamps, the names for two
/// different pages, or for two different runs, differ, so a later run never
/// writes over a file that an earlier run's mapping names.
pub proof fn lemma_thumbnail_names_distinct(
    p1: u32,
    r1: u64,
    s1: Seq<char>,
    p2: u32,
    r2: u64,
    s2: Seq<char>,
)
    requires
        p1 != p2 || r1 != r2,
    ensures
        thumbnail_name_spec(p1, r1, s1) != thumbnail_name_spec(p2, r2, s2),
{
    let pre = seq!['p', 'a', 'g', 'e', '_'];
    let tail1 = decimal(r1 as nat) + seq!['_'] + (s1 + seq!['.', 'j', 'p', 'g']);
    let tail2 = decimal(r2 as nat) + seq!['_'] + (s2 + seq!['.', 'j', 'p', 'g']);
    let n1 = thumbnail_name_spec(p1, r1, s1);
    let n2 = thumbnail_name_spec(p2, r2, s2);
    assert(n1 =~= pre + (decimal(p1 as nat) + seq!['_'] + tail1));
    assert(n2 =~= pre + (decimal(p2 as nat) + seq!['_'] + tail2));
    if n1 == n2 {
        lemma_decimal(p1 as nat);
        lemma_decimal(p2 as nat);
        lemma_decimal(r1 as nat);
        lemma_decimal(r2 as nat);
        assert(decimal(p1 as nat) + seq!['_'] + tail1 =~= n1.subrange(5, n1.len() as int));
        assert(decimal(p2 as nat) + seq!['_'] + tail2 =~= n2.subrange(5, n2.len() as int));
        lemma_split_at_separator(decimal(p1 as nat), tail1, decimal(p2 as nat), tail2);
        lemma_split_at_separator(
            decimal(r1 as nat),
            s1 + seq!['.', 'j', 'p', 'g'],
            decimal(r2 as nat),
            s2 + seq!['.', 'j', 'p', 'g'],
        );
        lemma_decimal_injective(p1 as nat, p2 as nat);
        lemma_decimal_injective(r1 as nat, r2 as nat);
    }
}

/// The run number after `last`; `None` when `last` is `u64::MAX`.
pub fn next_run_number(last: u64) -> (r: Option<u64>)
    ensures
        last < u64::MAX ==> r == Some((last + 1) as u64),
        last == u64::MAX ==> r is None,
{
    if last == u64::MAX {
        None
    } else {
        Some(last + 1)
    }
}

/// Relies on `chrono::Local::now` and its `format`: the local date and time
/// as `YYYYMMDD_HHMMSS`; it depends on the clock and the machine's time zone,
/// so nothing is promised of it.
#[verifier::external_body]
fn local_timestamp() -> (r: String) {
    chrono::Local::now().format("%Y%m%d_%H%M%S").to_string()
}

/// The name of the folder that document `id` owns.
pub fn document_folder_name(id: u64) -> (r: String)
    ensures
        r@ == folder_name_spec(id),
{
    proof {
        reveal_strlit("pdf_");
    }
    let mut out = String::from_str("pdf_");
    push_decimal(&mut out, id);
    out
}

/// The file name of document `id`'s copy.
pub fn clone_file_name(id: u64) -> (r: String)
    ensures
        r@ == clone_name_spec(id),
{
    proof {
        reveal_strlit(".pdf");
    }
    let mut out = String::new();
    push_decimal(&mut out, id);
    out.append(".pdf");
    assert(out@ =~= clone_name_spec(id));
    out
}

/// The file name of document `id`'s cover image rendered at `stamp`.
pub fn cover_file_name(id: u64, stamp: &str) -> (r: String)
    ensures
        r@ == cover_name_spec(id, stamp@),
{
    proof {
        reveal_strlit("_cover_");
        reveal_strlit(".jpg");
    }
    let mut out = String::new();
    push_decimal(&mut out, id);
    out.append("_cover_");
    out.append(stamp);
    out.append(".jpg");
    assert(out@ =~= cover_name_spec(id, stamp@));
    out
}

/// The file name of page `page`'s thumbnail image made by run `run` at
/// `stamp`.
pub fn thumbnail_file_name(page: u32, run: u64, stamp: &str) -> (r: String)
    ensures
        r@ == thumbnail_name_spec(page, run, stamp@),
{
    proof {
        reveal_strlit("page_");
        reveal_strlit("_");
        reveal_strlit(".jpg");
    }
    let mut out = String::from_str("page_");
    push_decimal(&mut out, page as u64);
    out.append("_");
    push_decimal(&mut out, run);
    out.append("_");
    out.append(stamp);
    out.append(".jpg");
    assert(out@ =~= thumbnail_name_spec(page, run, stamp@));
    out
}

/// The file name of document `id`'s cover image rendered now: some stamp of
/// the current local time stands in it.
pub fn cover_file_name_now(id: u64) -> (r: String)
    ensures
        exists|stamp: Seq<char>| r@ == cover_name_spec(id, stamp),
{
    let stamp = local_timestamp();
    cover_file_name(id, stamp.as_str())
}

/// The file name of page `page`'s thumbnail image made now by run `run`:
/// some stamp of the current local time stands in it, and the run number
/// keeps it apart from every other run's names.
pub fn thumbnail_file_name_now(page: u32, run: u64) -> (r: String)
    ensures
        exists|stamp: Seq<char>| r@ == thumbnail_name_spec(page, run, stamp),
{
    let stamp = local_timestamp();
    thumbnail_file_name(page, run, stamp.as_str())
}

} // verus!

use pdf_catalog::catalog::Catalog;
use pdf_catalog::layout::{cover_file_name_now, thumbnail_file_name};
use pdf_catalog::pipeline::{Action, Event, ExtractOptions, Extraction, RunRegistry};

#[derive(Clone, Copy, Debug, PartialEq)]
struct Size {
    height: u32,
    width: u32,
}

/// Drives a run; `fail_at` names the action that fails. Returns the page sets
/// announced by the dimension and thumbnail notifications, and the last action.
fn drive(
    options: ExtractOptions,
    pages: u32,
    fail_at: Option<Action>,
) -> (Vec<Vec<u32>>, Vec<Vec<u32>>, Action, Extraction<Size>) {
    let mut run: Extraction<Size> = Extraction::new(options, pages);
    let mut dims_notes = Vec::new();
    let mut thumb_notes = Vec::new();
    loop {
        let action = run.action();
        if Some(action) == fail_at {
            run.step(Event::Failed);
            continue;
        }
        let event = match action {
            Action::Measure(p) => Event::Measured(Size { height: 300 * p, width: 90 * p }),
            Action::CommitDimensions(_) => {
                let pages: Vec<u32> =
                    run.dimensions().pages().entries().iter().map(|e| e.0).collect();
                dims_notes.push(pages);
                Event::Committed
            }
            Action::RenderThumbnail(p) => Event::Rendered(thumbnail_file_name(p, 1, "20240101_000000")),
            Action::CommitThumbnails(_) => {
                let pages: Vec<u32> =
                    run.thumbnails().pages().entries().iter().map(|e| e.0).collect();
                thumb_notes.push(pages);
                Event::Committed
            }
            Action::Finished | Action::Aborted(_) => return (dims_notes, thumb_notes, action, run),
        };
        run.step(event);
    }
}

const BOTH: ExtractOptions = ExtractOptions { thumbnail: true, dims: true };

#[test]
fn notifications_grow_page_by_page() {
    let (dims, thumbs, last, run) = drive(BOTH, 3, None);
    assert_eq!(last, Action::Finished);
    assert_eq!(dims, vec![vec![1], vec![1, 2], vec![1, 2, 3]]);
    assert_eq!(thumbs, vec![vec![1], vec![1, 2], vec![1, 2, 3]]);
    for k in 1..dims.len() {
        assert!(dims[k - 1].iter().all(|p| dims[k].contains(p)));
    }
    assert_eq!(run.dimensions().get(2), Some(&Size { height: 600, width: 180 }));
    for p in 1..=3u32 {
        assert_eq!(run.dimensions().get(p), Some(&Size { height: 300 * p, width: 90 * p }));
    }
    assert_eq!(run.thumbnails().get(3).unwrap(), "page_3_1_20240101_000000.jpg");
}

#[test]
fn actions_follow_page_order() {
    let mut run: Extraction<Size> = Extraction::new(BOTH, 2);
    let mut seen = Vec::new();
    loop {
        let a = run.action();
        seen.push(a);
        let e = match a {
            Action::Measure(_) => Event::Measured(Size { height: 3, width: 3 }),
            Action::RenderThumbnail(_) => Event::Rendered(String::from("t")),
            Action::CommitDimensions(_) | Action::CommitThumbnails(_) => Event::Committed,
            _ => break,
        };
        run.step(e);
    }
    assert_eq!(
        seen,
        vec![
            Action::Measure(1),
            Action::CommitDimensions(1),
            Action::RenderThumbnail(1),
            Action::CommitThumbnails(1),
            Action::Measure(2),
            Action::CommitDimensions(2),
            Action::RenderThumbnail(2),
            Action::CommitThumbnails(2),
            Action::Finished,
        ]
    );
}

#[test]
fn render_failure_keeps_earlier_pages() {
    let (dims, thumbs, last, run) = drive(BOTH, 5, Some(Action::RenderThumbnail(3)));
    assert_eq!(last, Action::Aborted(3));
    assert_eq!(dims, vec![vec![1], vec![1, 2], vec![1, 2, 3]]);
    assert_eq!(thumbs, vec![vec![1], vec![1, 2]]);
    assert_eq!(run.dimensions().missing_pages(5), vec![4, 5]);
}

#[test]
fn measure_failure_stops_before_the_page() {
    let (dims, _, last, run) = drive(BOTH, 4, Some(Action::Measure(3)));
    assert_eq!(last, Action::Aborted(3));
    assert_eq!(dims.last().unwrap(), &vec![1, 2]);
    assert_eq!(run.dimensions().missing_pages(4), vec![3, 4]);
}

#[test]
fn commit_failure_aborts() {
    let (dims, _, last, _) = drive(BOTH, 4, Some(Action::CommitDimensions(2)));
    assert_eq!(last, Action::Aborted(2));
    assert_eq!(dims, vec![vec![1]]);
}

#[test]
fn nothing_requested_finishes_at_once() {
    let none = ExtractOptions { thumbnail: false, dims: false };
    let (dims, thumbs, last, _) = drive(none, 3, None);
    assert_eq!(last, Action::Finished);
    assert!(dims.is_empty() && thumbs.is_empty());
    let (_, _, last, _) = drive(BOTH, 0, None);
    assert_eq!(last, Action::Finished);
}

#[test]
fn dimensions_only() {
    let only = ExtractOptions { thumbnail: false, dims: true };
    let (dims, thumbs, last, _) = drive(only, 2, None);
    assert_eq!(last, Action::Finished);
    assert_eq!(dims, vec![vec![1], vec![1, 2]]);
    assert!(thumbs.is_empty());
}

#[test]
fn unexpected_event_changes_nothing() {
    let mut run: Extraction<Size> = Extraction::new(BOTH, 2);
    run.step(Event::Committed);
    assert_eq!(run.action(), Action::Measure(1));
    run.step(Event::Rendered(String::from("x")));
    assert_eq!(run.action(), Action::Measure(1));
    assert!(run.thumbnails().get(1).is_none());
}

#[test]
fn register_then_extract_three_pages() {
    let mut catalog = Catalog::new();
    let id = catalog.next_identity().unwrap();
    let cover = cover_file_name_now(id);
    let got = catalog
        .register(String::from("/in/three.pdf"), String::from("/d/pdf_1/1.pdf"), cover, String::from("three.pdf"))
        .unwrap();
    assert_eq!(got, 1);
    assert_eq!(catalog.len(), 1);
    assert!(!catalog.lookup(1).unwrap().cover_path.is_empty());
    assert!(catalog.lookup(1).unwrap().cover_path.starts_with("1_cover_"));
    let (_, _, last, run) = drive(BOTH, 3, None);
    assert_eq!(last, Action::Finished);
    assert_eq!(run.dimensions().pages().len(), 3);
    assert_eq!(run.thumbnails().pages().len(), 3);
    assert!(run.dimensions().missing_pages(3).is_empty());
}

#[test]
fn one_run_per_document() {
    let mut runs = RunRegistry::new();
    assert!(runs.try_start(1));
    assert!(!runs.try_start(1));
    assert!(runs.try_start(2));
    assert!(runs.is_running(1));
    runs.finish(1);
    assert!(!runs.is_running(1));
    assert!(runs.is_running(2));
    assert!(runs.try_start(1));
    runs.finish(7);
    assert!(runs.is_running(2));
}

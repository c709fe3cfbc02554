use audioserve::range::{
    checked_dec, into_range_bounds, plan_response, to_satisfiable_range, ChunkStream, RangeBound,
};
use audioserve::range::RangeBound::{Excluded, Included, Unbounded};

#[test]
fn checked_dec_values() {
    assert_eq!(checked_dec(0), 0);
    assert_eq!(checked_dec(1), 0);
    assert_eq!(checked_dec(100), 99);
}

#[test]
fn satisfiable_ranges() {
    assert_eq!(to_satisfiable_range((Included(0), Included(8191)), 1_048_576), Some((0, 8191)));
    assert_eq!(to_satisfiable_range((Included(10), Included(5000)), 100), Some((10, 99)));
    assert_eq!(to_satisfiable_range((Included(99), Included(99)), 100), Some((99, 99)));
    assert_eq!(to_satisfiable_range((Included(100), Included(200)), 100), None);
    assert_eq!(to_satisfiable_range((Included(20), Included(10)), 100), None);
    assert_eq!(to_satisfiable_range((Included(40), Unbounded), 100), Some((40, 99)));
    assert_eq!(to_satisfiable_range((Included(100), Unbounded), 100), None);
    assert_eq!(to_satisfiable_range((Unbounded, Included(30)), 100), Some((70, 99)));
    assert_eq!(to_satisfiable_range((Unbounded, Included(300)), 100), Some((0, 99)));
    assert_eq!(to_satisfiable_range((Unbounded, Included(0)), 100), None);
    assert_eq!(to_satisfiable_range((Unbounded, Included(5)), 0), None);
    assert_eq!(to_satisfiable_range((Excluded(1), Unbounded), 100), None);
    assert_eq!(to_satisfiable_range((Unbounded, Unbounded), 100), None);
}

#[test]
fn range_bounds_back() {
    assert_eq!(into_range_bounds((3, 7)), (RangeBound::Included(3), RangeBound::Included(7)));
}

#[test]
fn plan_partial_first_chunk() {
    let p = plan_response(Some((RangeBound::Included(0), RangeBound::Included(8191))), 1_048_576);
    assert!(p.partial);
    assert_eq!(p.length, 8192);
    assert_eq!(p.content_range(), (0, 8191));
    assert_eq!(p.total, 1_048_576);
}

#[test]
fn plan_whole_file() {
    let p = plan_response(None, 500);
    assert!(!p.partial);
    assert!(p.accept_ranges);
    assert_eq!((p.start, p.length), (0, 500));
}

#[test]
fn plan_last_byte() {
    let p = plan_response(Some((RangeBound::Included(499), RangeBound::Unbounded)), 500);
    assert!(p.partial);
    assert_eq!((p.start, p.length), (499, 1));
}

#[test]
fn plan_unsatisfiable_degrades_to_full() {
    let p = plan_response(Some((RangeBound::Included(500), RangeBound::Unbounded)), 500);
    assert!(!p.partial);
    assert!(!p.accept_ranges);
    assert_eq!((p.start, p.length), (0, 500));
}

#[test]
fn plan_empty_file() {
    let p = plan_response(None, 0);
    assert!(!p.partial);
    assert_eq!(p.length, 0);
}

fn serve(file: &[u8], range: Option<(RangeBound, RangeBound)>) -> Vec<u8> {
    let plan = plan_response(range, file.len() as u64);
    let mut stream = ChunkStream::new_with_limit(plan.length);
    let mut pos = plan.start as usize;
    let mut out = Vec::new();
    while stream.wants_read() {
        let end = (pos + 8192).min(file.len());
        match stream.accept(&file[pos..end]) {
            Some(chunk) => {
                pos += chunk.len();
                out.extend_from_slice(&chunk);
            }
            None => break,
        }
    }
    out
}

#[test]
fn served_range_is_the_slice() {
    let file: Vec<u8> = (0..20000u32).map(|i| (i % 251) as u8).collect();
    let out = serve(&file, Some((RangeBound::Included(100), RangeBound::Included(17099))));
    assert_eq!(out.len(), 17000);
    assert_eq!(&out[..], &file[100..17100]);
    let all = serve(&file, None);
    assert_eq!(all, file);
    let bad = serve(&file, Some((RangeBound::Included(30000), RangeBound::Unbounded)));
    assert_eq!(bad.len(), file.len());
}

#[test]
fn chunk_stream_stops_at_limit_and_eof() {
    let mut s = ChunkStream::new_with_limit(5);
    assert!(s.wants_read());
    assert_eq!(s.accept(&[1, 2, 3]), Some(vec![1, 2, 3]));
    assert_eq!(s.remains(), 2);
    assert_eq!(s.accept(&[4, 5, 6, 7]), Some(vec![4, 5]));
    assert!(!s.wants_read());
    assert!(s.is_done());
    let mut t = ChunkStream::new();
    assert_eq!(t.accept(&[]), None);
    assert!(t.is_done());
    assert_eq!(t.accept(&[1]), None);
}

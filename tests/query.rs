use cram_codec::query::{intersects, Action, Chunk, Interval, Placement, Query, State};

fn placed(id: usize, start: usize, end: usize) -> Placement {
    Placement { reference_sequence_id: Some(id), alignment_start: Some(start), alignment_end: Some(end) }
}

#[test]
fn query_walks_chunks() {
    let chunks = vec![Chunk { start: 10, end: 20 }, Chunk { start: 40, end: 50 }];
    let interval = Interval { start: Some(100), end: Some(200) };
    let mut q = Query::new(chunks, 1, interval);
    assert_eq!(q.poll(), Action::SeekTo(10));
    assert_eq!(q.poll(), Action::ReadRecord);
    // a record that crosses the chunk end is still delivered, then we seek
    assert!(q.on_record(Some(placed(1, 150, 160)), 25));
    assert_eq!(q.state, State::Seek);
    assert_eq!(q.poll(), Action::SeekTo(40));
    assert!(!q.on_record(Some(placed(2, 150, 160)), 41));
    assert_eq!(q.state, State::Read(50));
    assert!(!q.on_record(None, 41));
    assert_eq!(q.poll(), Action::Finish);
    assert_eq!(q.state, State::Done);
    assert_eq!(q.poll(), Action::Finish);
}

#[test]
fn errors_end_the_query() {
    let mut q = Query::new(vec![Chunk { start: 0, end: 5 }], 0, Interval { start: None, end: None });
    assert_eq!(q.poll(), Action::SeekTo(0));
    q.on_error();
    assert_eq!(q.poll(), Action::Finish);
}

#[test]
fn interval_overlap() {
    let i = Interval { start: Some(10), end: Some(20) };
    assert!(intersects(placed(0, 5, 10), 0, i));
    assert!(intersects(placed(0, 20, 30), 0, i));
    assert!(!intersects(placed(0, 21, 30), 0, i));
    assert!(!intersects(placed(0, 1, 9), 0, i));
    assert!(!intersects(placed(1, 12, 13), 0, i));
    assert!(intersects(placed(0, 1, 2), 0, Interval { start: None, end: None }));
    assert!(!intersects(Placement { reference_sequence_id: None, alignment_start: Some(1), alignment_end: Some(2) }, 0, i));
}

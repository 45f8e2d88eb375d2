use cut_bot::segment::{
    drop_empty_chunks, find_audio_chunks, find_audio_chunks_checked, Chunk,
};
use cut_bot::OrderingError;

fn chunk(start: u64, end: u64) -> Chunk {
    Chunk { start, end }
}

#[test]
fn no_events_yield_one_chunk_over_the_whole_duration() {
    let chunks = find_audio_chunks(&vec![], &vec![], 10_000);
    assert_eq!(chunks, vec![chunk(0, 10_000)]);
}

#[test]
fn example_segmentation() {
    // loud marks at 2s and 8s, one silence mark at 5s, ten seconds in all:
    // the silence default to the duration since no silent mark exceeds 8s.
    let loud: Vec<u64> = vec![2_000, 8_000];
    let silent: Vec<u64> = vec![5_000];
    let chunks = find_audio_chunks(&loud, &silent, 10_000);
    assert_eq!(
        chunks,
        vec![
            chunk(0, 2_000),
            chunk(2_000, 5_000),
            chunk(5_000, 8_000),
            chunk(8_000, 10_000),
        ]
    );
}

#[test]
fn segmentation_is_deterministic() {
    let loud: Vec<u64> = vec![1_000, 4_000, 9_000];
    let silent: Vec<u64> = vec![2_500, 6_000, 9_500];
    let first = find_audio_chunks(&loud, &silent, 12_000);
    let second = find_audio_chunks(&loud, &silent, 12_000);
    assert_eq!(first, second);
}

#[test]
fn segmentation_tiles_the_duration() {
    let loud: Vec<u64> = vec![1_000, 4_000, 9_000];
    let silent: Vec<u64> = vec![2_500, 6_000, 9_500];
    let total: u64 = 12_000;
    let chunks = find_audio_chunks(&loud, &silent, total);
    assert!(!chunks.is_empty());
    assert_eq!(chunks[0].start, 0);
    assert_eq!(chunks[chunks.len() - 1].end, total);
    for i in 0..chunks.len() - 1 {
        assert_eq!(chunks[i].end, chunks[i + 1].start);
    }
    for c in &chunks {
        assert!(c.start <= c.end);
    }
}

#[test]
fn coincident_silence_mark_does_not_end_the_loud_span() {
    // The search for the loud span's end is strictly greater: a silence mark
    // at exactly the loud start is passed over.
    let chunks = find_audio_chunks(&vec![2_000], &vec![2_000], 5_000);
    assert_eq!(chunks, vec![chunk(0, 2_000), chunk(2_000, 5_000)]);
}

#[test]
fn loud_span_without_later_silence_runs_to_the_end() {
    let chunks = find_audio_chunks(&vec![3_000], &vec![1_000], 7_000);
    assert_eq!(chunks, vec![chunk(0, 3_000), chunk(3_000, 7_000)]);
}

#[test]
fn checked_segmentation_accepts_valid_events() {
    let loud: Vec<u64> = vec![2_000, 8_000];
    let silent: Vec<u64> = vec![5_000];
    let checked = find_audio_chunks_checked(&loud, &silent, 10_000);
    assert_eq!(checked, Ok(find_audio_chunks(&loud, &silent, 10_000)));
}

#[test]
fn checked_segmentation_rejects_overlapping_spans() {
    // The loud span starting at 1s ends at the 5s silence mark, past the next
    // loud start at 2s: the sweep would emit overlapping chunks.
    let loud: Vec<u64> = vec![1_000, 2_000];
    let silent: Vec<u64> = vec![5_000];
    assert_eq!(
        find_audio_chunks_checked(&loud, &silent, 10_000),
        Err(OrderingError)
    );
}

#[test]
fn checked_segmentation_rejects_marks_beyond_the_duration() {
    assert_eq!(
        find_audio_chunks_checked(&vec![20_000], &vec![], 10_000),
        Err(OrderingError)
    );
    assert_eq!(
        find_audio_chunks_checked(&vec![2_000], &vec![15_000], 10_000),
        Err(OrderingError)
    );
}

#[test]
fn zero_length_chunks_are_suppressed() {
    let chunks = vec![chunk(0, 0), chunk(0, 5), chunk(5, 5), chunk(5, 9)];
    assert_eq!(drop_empty_chunks(&chunks), vec![chunk(0, 5), chunk(5, 9)]);
}

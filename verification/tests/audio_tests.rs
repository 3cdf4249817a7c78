use recall::audio::collect_audio_by_speaker;
use recall::audio::duration_ms;
use recall::audio::normalize_segments;
use recall::audio::DiarizedSegment;

fn seg(cluster: &str, start_ms: u64, end_ms: u64, text: &str) -> DiarizedSegment {
    DiarizedSegment {
        cluster: cluster.to_string(),
        start_ms,
        end_ms,
        text: text.to_string(),
    }
}

#[test]
fn duration_from_samples_and_rate() {
    assert_eq!(duration_ms(48000, 16000), 3000);
    assert_eq!(duration_ms(8001, 8000), 1000);
    assert_eq!(duration_ms(123, 0), 0);
}

#[test]
fn absent_segments_synthesize_whole_clip() {
    let out = normalize_segments(None, "whole transcript", 5000);
    assert_eq!(out.len(), 1);
    assert_eq!(out[0].cluster, "speaker_0");
    assert_eq!(out[0].start_ms, 0);
    assert_eq!(out[0].end_ms, 5000);
    assert_eq!(out[0].text, "whole transcript");
}

#[test]
fn empty_segments_synthesize_with_floor() {
    // A very short clip still gets a synthetic span, clamped to the clip.
    let out = normalize_segments(Some(Vec::new()), "t", 400);
    assert_eq!(out.len(), 1);
    assert_eq!(out[0].end_ms, 400);
    // An unknown clip length leaves the one-second floor in place.
    let out2 = normalize_segments(Some(Vec::new()), "t", 0);
    assert_eq!(out2.len(), 1);
    assert_eq!(out2[0].end_ms, 1000);
}

#[test]
fn broken_spans_are_repaired_and_clamped() {
    let input = vec![
        seg("a", 2000, 0, "zero end"),
        seg("b", 3000, 2500, "end before start"),
        seg("c", 1000, 99_000, "end past clip"),
    ];
    let out = normalize_segments(Some(input), "t", 10_000);
    // Sorted by start: c (1000), a (2000), b (3000).
    assert_eq!(out[0].cluster, "c");
    assert_eq!(out[0].end_ms, 10_000);
    assert_eq!(out[1].cluster, "a");
    assert_eq!(out[1].end_ms, 3000);
    assert_eq!(out[2].cluster, "b");
    assert_eq!(out[2].end_ms, 4000);
}

#[test]
fn normalization_sorts_stably() {
    let input = vec![
        seg("later", 500, 600, "1"),
        seg("tie-first", 100, 200, "2"),
        seg("tie-second", 100, 300, "3"),
    ];
    let out = normalize_segments(Some(input), "t", 10_000);
    assert_eq!(out[0].cluster, "tie-first");
    assert_eq!(out[1].cluster, "tie-second");
    assert_eq!(out[2].cluster, "later");
}

#[test]
fn bucketing_groups_by_cluster() {
    // 1 kHz for easy arithmetic: one sample per millisecond.
    let samples: Vec<u32> = (0..100u32).collect();
    let segments = vec![
        seg("a", 0, 10, ""),
        seg("b", 10, 20, ""),
        seg("a", 20, 30, ""),
    ];
    let buckets = collect_audio_by_speaker(&samples, 1000, &segments);
    assert_eq!(buckets.labels, vec!["a".to_string(), "b".to_string()]);
    let a: Vec<u32> = (0..10u32).chain(20..30u32).collect();
    let b: Vec<u32> = (10..20u32).collect();
    assert_eq!(buckets.buffers[0], a);
    assert_eq!(buckets.buffers[1], b);
}

#[test]
fn bucketing_caps_at_ten_seconds() {
    // At 1 Hz the cap is max(1, 10) = 10 samples.
    let samples: Vec<u32> = (0..50u32).collect();
    let segments = vec![seg("a", 0, 40_000, ""), seg("a", 40_000, 50_000, "")];
    let buckets = collect_audio_by_speaker(&samples, 1, &segments);
    assert_eq!(buckets.labels.len(), 1);
    assert_eq!(buckets.buffers[0], (0..10u32).collect::<Vec<u32>>());
}

#[test]
fn bucketing_skips_empty_spans() {
    let samples: Vec<u32> = (0..100u32).collect();
    let segments = vec![
        seg("empty", 50, 50, ""),
        seg("past-clip", 200, 300, ""),
        seg("real", 0, 10, ""),
    ];
    let buckets = collect_audio_by_speaker(&samples, 1000, &segments);
    assert_eq!(buckets.labels, vec!["real".to_string()]);
    assert_eq!(buckets.buffers[0].len(), 10);
}

#[test]
fn bucketing_rounds_start_down_and_end_up() {
    // 3 Hz: 500 ms lands mid-sample both ways.
    let samples: Vec<u32> = (0..30u32).collect();
    let segments = vec![seg("a", 500, 1500, "")];
    let buckets = collect_audio_by_speaker(&samples, 3, &segments);
    // floor(0.5 * 3) = 1, ceil(1.5 * 3) = 5.
    assert_eq!(buckets.buffers[0], vec![1, 2, 3, 4]);
}

//! Diarized-segment normalization and per-cluster audio bucketing.
//!
//! A transcription response carries a transcript and, optionally, diarized
//! segments tagged with provisional cluster labels. [`normalize_segments`]
//! repairs and orders those spans — synthesizing a single whole-clip segment
//! when none came back — and [`collect_audio_by_speaker`] accumulates a
//! bounded window of representative mono samples per cluster label, ready
//! for one embedding-inference call per cluster.
//!
//! Samples travel as the raw bit patterns of single-precision PCM values;
//! the bucketer only moves them, so their numeric reading never matters
//! here.

use vstd::prelude::*;

verus! {

/// How much audio a cluster's bucket may accumulate, in milliseconds.
pub const TARGET_SPEAKER_MS: u64 = 10_000;

/// A diarized segment: a provisional cluster label, a millisecond span, and
/// the text spoken in it.
#[derive(Debug, Clone)]
pub struct DiarizedSegment {
    pub cluster: String,
    pub start_ms: u64,
    pub end_ms: u64,
    pub text: String,
}

/// The duration in milliseconds of a clip with this many samples at this
/// rate; zero when the rate is zero.
pub open spec fn spec_duration_ms(sample_count: int, sample_rate: int) -> int {
    if sample_rate == 0 {
        0
    } else {
        (sample_count * 1000) / sample_rate
    }
}

/// The duration in milliseconds of a mono clip.
pub fn duration_ms(sample_count: usize, sample_rate: u32) -> (r: u64)
    requires
        sample_count * 1000 <= u64::MAX,
    ensures
        r == spec_duration_ms(sample_count as int, sample_rate as int),
{
    if sample_rate == 0 {
        0
    } else {
        (sample_count as u64 * 1000) / (sample_rate as u64)
    }
}

/// The repaired end of a span: an end of zero, or one before the start, is
/// pushed one second past the start (saturating); an end past the clip is
/// clamped to the clip, unless the clip length is unknown (zero).
pub open spec fn patch_end(start: u64, end: u64, max_end: u64) -> u64 {
    let repaired: u64 = if end == 0 || end < start {
        if start + 1000 <= u64::MAX {
            (start + 1000) as u64
        } else {
            u64::MAX
        }
    } else {
        end
    };
    if max_end > 0 && repaired > max_end {
        max_end
    } else {
        repaired
    }
}

/// A segment with its span repaired against the clip duration.
pub open spec fn patched_segment(s: DiarizedSegment, max_end: u64) -> DiarizedSegment {
    DiarizedSegment {
        cluster: s.cluster,
        start_ms: s.start_ms,
        end_ms: patch_end(s.start_ms, s.end_ms, max_end),
        text: s.text,
    }
}

/// Inserting a segment into a start-time-sorted run: segments strictly later
/// shift right, and the new one lands after any segment that starts no
/// later, so equal starts keep their relative order.
pub open spec fn insert_segment_by_start(s: Seq<DiarizedSegment>, x: DiarizedSegment) -> Seq<
    DiarizedSegment,
>
    decreases s.len(),
{
    if s.len() == 0 {
        seq![x]
    } else if s.last().start_ms <= x.start_ms {
        s.push(x)
    } else {
        insert_segment_by_start(s.drop_last(), x).push(s.last())
    }
}

/// The stable ascending ordering of diarized segments by `start_ms`.
pub open spec fn sort_segments_by_start(s: Seq<DiarizedSegment>) -> Seq<DiarizedSegment>
    decreases s.len(),
{
    if s.len() == 0 {
        Seq::empty()
    } else {
        insert_segment_by_start(sort_segments_by_start(s.drop_last()), s.last())
    }
}

/// Inserting into a run keeps its length plus one and its contents plus the
/// new segment.
pub proof fn lemma_insert_segment_multiset(s: Seq<DiarizedSegment>, x: DiarizedSegment)
    ensures
        insert_segment_by_start(s, x).len() == s.len() + 1,
        insert_segment_by_start(s, x).to_multiset() =~= s.to_multiset().insert(x),
    decreases s.len(),
{
    broadcast use vstd::seq_lib::group_to_multiset_ensures;

    if s.len() == 0 {
        assert(insert_segment_by_start(s, x) =~= Seq::<DiarizedSegment>::empty().push(x));
        assert(s =~= Seq::<DiarizedSegment>::empty());
    } else if s.last().start_ms <= x.start_ms {
    } else {
        lemma_insert_segment_multiset(s.drop_last(), x);
        assert(s =~= s.drop_last().push(s.last()));
        assert(s.to_multiset() =~= s.drop_last().to_multiset().insert(s.last()));
        assert(insert_segment_by_start(s, x).to_multiset() =~= insert_segment_by_start(
            s.drop_last(),
            x,
        ).to_multiset().insert(s.last()));
        assert(s.drop_last().to_multiset().insert(x).insert(s.last())
            =~= s.drop_last().to_multiset().insert(s.last()).insert(x));
    }
}

/// Sorting keeps the segments: same length, same contents.
pub proof fn lemma_sort_segments_multiset(s: Seq<DiarizedSegment>)
    ensures
        sort_segments_by_start(s).len() == s.len(),
        sort_segments_by_start(s).to_multiset() =~= s.to_multiset(),
    decreases s.len(),
{
    broadcast use vstd::seq_lib::group_to_multiset_ensures;

    if s.len() == 0 {
        assert(sort_segments_by_start(s) =~= Seq::<DiarizedSegment>::empty());
        assert(s =~= Seq::<DiarizedSegment>::empty());
    } else {
        lemma_sort_segments_multiset(s.drop_last());
        lemma_insert_segment_multiset(sort_segments_by_start(s.drop_last()), s.last());
        assert(s =~= s.drop_last().push(s.last()));
        assert(s.to_multiset() =~= s.drop_last().to_multiset().insert(s.last()));
    }
}

/// Inserting into a sorted run keeps it sorted.
proof fn lemma_insert_segment_sorted(s: Seq<DiarizedSegment>, x: DiarizedSegment)
    requires
        forall|i: int, j: int| 0 <= i < j < s.len() ==> s[i].start_ms <= s[j].start_ms,
    ensures
        forall|i: int, j: int|
            0 <= i < j < insert_segment_by_start(s, x).len() ==> insert_segment_by_start(
                s,
                x,
            )[i].start_ms <= insert_segment_by_start(s, x)[j].start_ms,
    decreases s.len(),
{
    let out = insert_segment_by_start(s, x);
    if s.len() == 0 {
    } else if s.last().start_ms <= x.start_ms {
        assert forall|i: int, j: int|
            0 <= i < j < out.len() implies out[i].start_ms <= out[j].start_ms by {
            if j == out.len() - 1 {
                assert(out[i] == s[i]);
                if i < s.len() - 1 {
                    assert(s[i].start_ms <= s[s.len() - 1].start_ms);
                }
            }
        }
    } else {
        let sub = insert_segment_by_start(s.drop_last(), x);
        assert forall|i: int, j: int|
            0 <= i < j < s.drop_last().len() implies s.drop_last()[i].start_ms
            <= s.drop_last()[j].start_ms by {
            assert(s.drop_last()[i] == s[i]);
            assert(s.drop_last()[j] == s[j]);
        }
        lemma_insert_segment_sorted(s.drop_last(), x);
        lemma_insert_segment_multiset(s.drop_last(), x);
        broadcast use vstd::seq_lib::group_to_multiset_ensures;

        assert forall|i: int, j: int|
            0 <= i < j < out.len() implies out[i].start_ms <= out[j].start_ms by {
            if j == out.len() - 1 {
                assert(out[j] == s.last());
                assert(out[i] == sub[i]);
                assert(sub.contains(sub[i]));
                assert(sub.to_multiset().count(sub[i]) > 0);
                if sub[i] == x {
                    assert(x.start_ms <= s.last().start_ms);
                } else {
                    assert(s.drop_last().to_multiset().count(sub[i]) > 0);
                    assert(s.drop_last().contains(sub[i]));
                    let w = choose|w: int|
                        0 <= w < s.drop_last().len() && s.drop_last()[w] == sub[i];
                    assert(s[w].start_ms <= s[s.len() - 1].start_ms);
                }
            } else {
                assert(out[i] == sub[i]);
                assert(out[j] == sub[j]);
            }
        }
    }
}

/// The ordering law of normalization: the stable sort is ascending in
/// `start_ms`.
pub proof fn lemma_sort_segments_sorted(s: Seq<DiarizedSegment>)
    ensures
        forall|i: int, j: int|
            0 <= i < j < sort_segments_by_start(s).len() ==> sort_segments_by_start(s)[i].start_ms
                <= sort_segments_by_start(s)[j].start_ms,
    decreases s.len(),
{
    if s.len() > 0 {
        lemma_sort_segments_sorted(s.drop_last());
        lemma_insert_segment_sorted(sort_segments_by_start(s.drop_last()), s.last());
    }
}

/// Inserting at the position the exec search finds is the specified
/// insertion.
proof fn lemma_insert_segment_at(s: Seq<DiarizedSegment>, x: DiarizedSegment, pos: int)
    requires
        0 <= pos <= s.len(),
        forall|m: int| pos <= m < s.len() ==> s[m].start_ms > x.start_ms,
        pos > 0 ==> s[pos - 1].start_ms <= x.start_ms,
    ensures
        insert_segment_by_start(s, x) =~= s.insert(pos, x),
    decreases s.len(),
{
    if s.len() == 0 {
    } else if pos == s.len() {
        assert(s.last().start_ms <= x.start_ms);
    } else {
        assert(s[s.len() - 1].start_ms > x.start_ms);
        assert forall|m: int| pos <= m < s.drop_last().len() implies s.drop_last()[m].start_ms
            > x.start_ms by {
            assert(s.drop_last()[m] == s[m]);
        }
        lemma_insert_segment_at(s.drop_last(), x, pos);
        assert(insert_segment_by_start(s, x) =~= s.drop_last().insert(pos, x).push(s.last()));
    }
}

/// A copy of a diarized segment, equal to the original.
fn clone_diarized_segment(s: &DiarizedSegment) -> (c: DiarizedSegment)
    ensures
        c == *s,
{
    DiarizedSegment {
        cluster: s.cluster.clone(),
        start_ms: s.start_ms,
        end_ms: s.end_ms,
        text: s.text.clone(),
    }
}

/// Sorts diarized segments ascending by `start_ms`, stably.
fn sort_diarized_segments(rows: Vec<DiarizedSegment>) -> (r: Vec<DiarizedSegment>)
    ensures
        r@ == sort_segments_by_start(rows@),
{
    let mut out: Vec<DiarizedSegment> = Vec::new();
    let mut k: usize = 0;
    while k < rows.len()
        invariant
            k <= rows@.len(),
            out@ =~= sort_segments_by_start(rows@.take(k as int)),
        decreases rows@.len() - k,
    {
        proof {
            lemma_sort_segments_multiset(rows@.take(k as int));
        }
        let x = clone_diarized_segment(&rows[k]);
        let mut pos: usize = out.len();
        while pos > 0 && out[pos - 1].start_ms > x.start_ms
            invariant
                pos <= out@.len(),
                forall|m: int| pos <= m < out@.len() ==> out@[m].start_ms > x.start_ms,
            decreases pos,
        {
            pos -= 1;
        }
        proof {
            lemma_insert_segment_at(out@, x, pos as int);
            assert(rows@.take(k as int + 1).drop_last() =~= rows@.take(k as int));
            assert(rows@.take(k as int + 1).last() == rows@[k as int]);
        }
        out.insert(pos, x);
        k += 1;
    }
    proof {
        assert(rows@.take(rows@.len() as int) =~= rows@);
    }
    out
}

/// Normalizes a transcription response's segments against the clip: absent
/// or empty diarization becomes one whole-clip segment under the synthetic
/// cluster label `speaker_0`, every span is repaired and clamped against the
/// clip duration, and the result is ordered by start time, stably.
pub fn normalize_segments(
    segments: Option<Vec<DiarizedSegment>>,
    transcript: &str,
    clip_duration_ms: u64,
) -> (r: Vec<DiarizedSegment>)
    ensures
        ({
            let given = match segments {
                Some(v) => v@,
                None => Seq::<DiarizedSegment>::empty(),
            };
            if given.len() == 0 {
                &&& r@.len() == 1
                &&& r@[0].cluster@ == "speaker_0"@
                &&& r@[0].start_ms == 0
                &&& r@[0].end_ms == patch_end(
                    0,
                    if clip_duration_ms > 1000 {
                        clip_duration_ms
                    } else {
                        1000
                    },
                    clip_duration_ms,
                )
                &&& r@[0].text@ == transcript@
            } else {
                r@ == sort_segments_by_start(
                    given.map_values(|s: DiarizedSegment| patched_segment(s, clip_duration_ms)),
                )
            }
        }),
{
    let ghost given: Seq<DiarizedSegment> = if segments is Some {
        segments.unwrap()@
    } else {
        Seq::<DiarizedSegment>::empty()
    };
    let segs: Vec<DiarizedSegment> = match segments {
        Some(v) => v,
        None => Vec::new(),
    };
    if segs.len() == 0 {
        let end0: u64 = if clip_duration_ms > 1000 {
            clip_duration_ms
        } else {
            1000
        };
        let synthetic = DiarizedSegment {
            cluster: "speaker_0".to_owned(),
            start_ms: 0,
            end_ms: end0,
            text: transcript.to_owned(),
        };
        let patched = patch_segment_exec(&synthetic, clip_duration_ms);
        let mut one: Vec<DiarizedSegment> = Vec::new();
        one.push(patched);
        return one;
    }
    let mut patched_rows: Vec<DiarizedSegment> = Vec::new();
    let mut i: usize = 0;
    while i < segs.len()
        invariant
            i <= segs@.len(),
            patched_rows@ =~= segs@.take(i as int).map_values(
                |s: DiarizedSegment| patched_segment(s, clip_duration_ms),
            ),
        decreases segs@.len() - i,
    {
        let p = patch_segment_exec(&segs[i], clip_duration_ms);
        patched_rows.push(p);
        proof {
            let f = |s: DiarizedSegment| patched_segment(s, clip_duration_ms);
            assert(segs@.take(i as int + 1).map_values(f) =~= segs@.take(i as int).map_values(
                f,
            ).push(f(segs@[i as int])));
        }
        i += 1;
    }
    proof {
        assert(segs@.take(segs@.len() as int) =~= segs@);
        assert(segs@ == given);
    }
    sort_diarized_segments(patched_rows)
}

/// The per-cluster audio windows: `labels[i]` is the cluster label whose
/// accumulated samples are `buffers[i]`, in first-touch order.
#[derive(Debug)]
pub struct AudioBuckets {
    pub labels: Vec<String>,
    pub buffers: Vec<Vec<u32>>,
}

/// The sample index a span start falls on: milliseconds times rate, rounded
/// down.
pub open spec fn raw_start_index(start_ms: u64, sample_rate: u32) -> int {
    (start_ms * sample_rate) / 1000
}

/// The sample index a span end falls on: milliseconds times rate, rounded
/// up.
pub open spec fn raw_end_index(end_ms: u64, sample_rate: u32) -> int {
    (end_ms * sample_rate + 999) / 1000
}

/// The most samples one cluster's bucket accumulates: ten seconds' worth,
/// and at least one.
pub open spec fn spec_target_samples(sample_rate: u32) -> int {
    let t = (sample_rate * TARGET_SPEAKER_MS) / 1000;
    if t < 1 {
        1
    } else {
        t
    }
}

/// Whether the accumulated buckets already hold this cluster label.
pub open spec fn has_bucket_label(acc: Seq<(Seq<char>, Seq<u32>)>, label: Seq<char>) -> bool {
    exists|k: int| 0 <= k < acc.len() && #[trigger] acc[k].0 == label
}

/// One segment's contribution to the buckets: its span becomes a sample
/// range — floor for the start, ceiling for the end, clamped to the clip —
/// and the samples go to its cluster's bucket up to the cap; a span that is
/// empty after clamping contributes nothing, and a first contribution opens
/// the bucket, so an open bucket is never empty.
pub open spec fn bucket_step(
    samples: Seq<u32>,
    sample_rate: u32,
    target: int,
    acc: Seq<(Seq<char>, Seq<u32>)>,
    seg: DiarizedSegment,
) -> Seq<(Seq<char>, Seq<u32>)> {
    let s0 = raw_start_index(seg.start_ms, sample_rate);
    let e0 = raw_end_index(seg.end_ms, sample_rate);
    if e0 <= s0 {
        acc
    } else {
        let s = if s0 < samples.len() {
            s0
        } else {
            samples.len() as int
        };
        let e = if e0 < samples.len() {
            e0
        } else {
            samples.len() as int
        };
        if e <= s {
            acc
        } else {
            if has_bucket_label(acc, seg.cluster@) {
                let k = choose|k: int| 0 <= k < acc.len() && #[trigger] acc[k].0 == seg.cluster@;
                let cur = acc[k].1;
                if cur.len() >= target {
                    acc
                } else {
                    let take_n = if target - cur.len() < e - s {
                        target - cur.len()
                    } else {
                        e - s
                    };
                    acc.update(k, (acc[k].0, cur + samples.subrange(s, s + take_n)))
                }
            } else {
                let take_n = if target < e - s {
                    target
                } else {
                    e - s
                };
                acc.push((seg.cluster@, samples.subrange(s, s + take_n)))
            }
        }
    }
}

/// The buckets after all segments have contributed, in order.
pub open spec fn buckets_spec(
    samples: Seq<u32>,
    sample_rate: u32,
    target: int,
    segs: Seq<DiarizedSegment>,
) -> Seq<(Seq<char>, Seq<u32>)>
    decreases segs.len(),
{
    if segs.len() == 0 {
        Seq::empty()
    } else {
        bucket_step(
            samples,
            sample_rate,
            target,
            buckets_spec(samples, sample_rate, target, segs.drop_last()),
            segs.last(),
        )
    }
}

/// Finds the bucket that carries this cluster label.
fn find_label(labels: &Vec<String>, cluster: &String) -> (r: Option<usize>)
    ensures
        match r {
            Some(k) => k < labels@.len() && labels@[k as int]@ == cluster@,
            None => forall|k: int| 0 <= k < labels@.len() ==> #[trigger] labels@[k]@ != cluster@,
        },
{
    let mut i: usize = 0;
    while i < labels.len()
        invariant
            i <= labels@.len(),
            forall|k: int| 0 <= k < i ==> #[trigger] labels@[k]@ != cluster@,
        decreases labels@.len() - i,
    {
        if labels[i] == *cluster {
            return Some(i);
        }
        i += 1;
    }
    None
}

/// Groups a clip's mono samples by diarization cluster label: each segment's
/// span is converted to a clamped sample range and appended to its cluster's
/// bucket, up to ten seconds of samples per cluster — first-seen audio wins,
/// later samples for a full bucket are dropped. Labels come out in
/// first-touch order, no label repeats, and no emitted bucket is empty or
/// over the cap.
pub fn collect_audio_by_speaker(
    samples: &Vec<u32>,
    sample_rate: u32,
    segments: &Vec<DiarizedSegment>,
) -> (r: AudioBuckets)
    ensures
        ({
            let target = spec_target_samples(sample_rate);
            let model = buckets_spec(samples@, sample_rate, target, segments@);
            &&& r.labels@.len() == model.len()
            &&& r.buffers@.len() == model.len()
            &&& forall|i: int| 0 <= i < model.len() ==> #[trigger] r.labels@[i]@ == model[i].0
            &&& forall|i: int| 0 <= i < model.len() ==> #[trigger] r.buffers@[i]@ == model[i].1
            &&& forall|i: int, j: int| 0 <= i < j < model.len() ==> model[i].0 != model[j].0
            &&& forall|i: int|
                0 <= i < model.len() ==> 1 <= (#[trigger] model[i].1).len() <= target
        }),
{
    let total: usize = samples.len();
    let target: u64 = {
        let t = (sample_rate as u64) * TARGET_SPEAKER_MS / 1000;
        if t < 1 {
            1
        } else {
            t
        }
    };
    let mut labels: Vec<String> = Vec::new();
    let mut buffers: Vec<Vec<u32>> = Vec::new();
    let mut i: usize = 0;
    while i < segments.len()
        invariant
            i <= segments@.len(),
            total == samples@.len(),
            target == spec_target_samples(sample_rate),
            ({
                let model = buckets_spec(
                    samples@,
                    sample_rate,
                    target as int,
                    segments@.take(i as int),
                );
                &&& labels@.len() == model.len()
                &&& buffers@.len() == model.len()
                &&& forall|k: int| 0 <= k < model.len() ==> #[trigger] labels@[k]@ == model[k].0
                &&& forall|k: int| 0 <= k < model.len() ==> #[trigger] buffers@[k]@ == model[k].1
            }),
            forall|k: int, l: int| 0 <= k < l < labels@.len() ==> labels@[k]@ != labels@[l]@,
            forall|k: int|
                0 <= k < buffers@.len() ==> 1 <= (#[trigger] buffers@[k]@).len() <= target,
        decreases segments@.len() - i,
    {
        let ghost model_pre = buckets_spec(
            samples@,
            sample_rate,
            target as int,
            segments@.take(i as int),
        );
        proof {
            assert(segments@.take(i as int + 1).drop_last() =~= segments@.take(i as int));
            assert(segments@.take(i as int + 1).last() == segments@[i as int]);
        }
        let seg = &segments[i];
        proof {
            assert(seg.start_ms as int * sample_rate as int <= 0xFFFF_FFFF_FFFF_FFFF
                * 0xFFFF_FFFF) by (nonlinear_arith)
                requires
                    seg.start_ms as int <= 0xFFFF_FFFF_FFFF_FFFF,
                    sample_rate as int <= 0xFFFF_FFFF,
            ;
            assert(seg.end_ms as int * sample_rate as int <= 0xFFFF_FFFF_FFFF_FFFF * 0xFFFF_FFFF)
                by (nonlinear_arith)
                requires
                    seg.end_ms as int <= 0xFFFF_FFFF_FFFF_FFFF,
                    sample_rate as int <= 0xFFFF_FFFF,
            ;
        }
        let s0_wide: u128 = (seg.start_ms as u128) * (sample_rate as u128) / 1000;
        let e0_wide: u128 = ((seg.end_ms as u128) * (sample_rate as u128) + 999) / 1000;
        let ghost step = bucket_step(
            samples@,
            sample_rate,
            target as int,
            model_pre,
            segments@[i as int],
        );
        proof {
            assert(s0_wide as int == raw_start_index(seg.start_ms, sample_rate));
            assert(e0_wide as int == raw_end_index(seg.end_ms, sample_rate));
            assert(buckets_spec(samples@, sample_rate, target as int, segments@.take(i as int + 1))
                == step);
        }
        if e0_wide > s0_wide {
            let s_idx: usize = if s0_wide < total as u128 {
                s0_wide as usize
            } else {
                total
            };
            let e_idx: usize = if e0_wide < total as u128 {
                e0_wide as usize
            } else {
                total
            };
            if e_idx > s_idx {
                match find_label(&labels, &seg.cluster) {
                    Some(k) => {
                        proof {
                            assert(has_bucket_label(model_pre, seg.cluster@));
                            let kk = choose|kk: int|
                                0 <= kk < model_pre.len() && #[trigger] model_pre[kk].0
                                    == seg.cluster@;
                            if kk != k as int {
                                assert(labels@[kk]@ == model_pre[kk].0);
                                assert(labels@[k as int]@ != labels@[kk]@);
                            }
                            assert(kk == k as int);
                        }
                        let cur_len = buffers[k].len();
                        if (cur_len as u64) < target {
                            let remaining: u64 = target - cur_len as u64;
                            let avail: u64 = (e_idx - s_idx) as u64;
                            let take_n: usize = if remaining < avail {
                                remaining as usize
                            } else {
                                e_idx - s_idx
                            };
                            let mut nb: Vec<u32> = Vec::new();
                            let cur = &buffers[k];
                            let mut t: usize = 0;
                            while t < cur.len()
                                invariant
                                    t <= cur@.len(),
                                    nb@ =~= cur@.take(t as int),
                                decreases cur@.len() - t,
                            {
                                nb.push(cur[t]);
                                proof {
                                    assert(cur@.take(t as int + 1) =~= cur@.take(t as int).push(
                                        cur@[t as int],
                                    ));
                                }
                                t += 1;
                            }
                            proof {
                                assert(cur@.take(cur@.len() as int) =~= cur@);
                            }
                            let mut u: usize = 0;
                            while u < take_n
                                invariant
                                    u <= take_n,
                                    total == samples@.len(),
                                    s_idx + take_n <= samples@.len(),
                                    nb@ =~= buffers@[k as int]@ + samples@.subrange(
                                        s_idx as int,
                                        s_idx as int + u as int,
                                    ),
                                    k < buffers@.len(),
                                decreases take_n - u,
                            {
                                nb.push(samples[s_idx + u]);
                                proof {
                                    assert(samples@.subrange(
                                        s_idx as int,
                                        s_idx as int + u as int + 1,
                                    ) =~= samples@.subrange(s_idx as int, s_idx as int + u as int,
                                    ).push(samples@[s_idx as int + u as int]));
                                }
                                u += 1;
                            }
                            let ghost buffers_pre = buffers@;
                            buffers[k] = nb;
                            proof {
                                let sa = s_idx as int;
                                let tn = take_n as int;
                                let updated = (
                                    model_pre[k as int].0,
                                    model_pre[k as int].1 + samples@.subrange(sa, sa + tn),
                                );
                                assert(nb@ == model_pre[k as int].1 + samples@.subrange(
                                    sa,
                                    sa + tn,
                                ));
                                assert(step =~= model_pre.update(k as int, updated));
                                assert forall|w: int|
                                    0 <= w < step.len() implies labels@[w]@ == step[w].0
                                    && buffers@[w]@ == step[w].1 by {
                                    if w != k as int {
                                        assert(step[w] == model_pre[w]);
                                        assert(buffers@[w] == buffers_pre[w]);
                                    }
                                }
                            }
                        } else {
                            proof {
                                assert(step == model_pre);
                            }
                        }
                    },
                    None => {
                        let avail: u64 = (e_idx - s_idx) as u64;
                        let take_n: usize = if target < avail {
                            target as usize
                        } else {
                            e_idx - s_idx
                        };
                        let mut nb: Vec<u32> = Vec::new();
                        let mut u: usize = 0;
                        while u < take_n
                            invariant
                                u <= take_n,
                                total == samples@.len(),
                                s_idx + take_n <= samples@.len(),
                                nb@ =~= samples@.subrange(
                                    s_idx as int,
                                    s_idx as int + u as int,
                                ),
                            decreases take_n - u,
                        {
                            nb.push(samples[s_idx + u]);
                            proof {
                                assert(samples@.subrange(
                                    s_idx as int,
                                    s_idx as int + u as int + 1,
                                ) =~= samples@.subrange(s_idx as int, s_idx as int + u as int,
                                ).push(samples@[s_idx as int + u as int]));
                            }
                            u += 1;
                        }
                        let ghost labels_pre = labels@;
                        let ghost buffers_pre = buffers@;
                        labels.push(seg.cluster.clone());
                        buffers.push(nb);
                        proof {
                            let sa = s_idx as int;
                            let tn = take_n as int;
                            assert(!has_bucket_label(model_pre, seg.cluster@)) by {
                                if has_bucket_label(model_pre, seg.cluster@) {
                                    let kk = choose|kk: int|
                                        0 <= kk < model_pre.len() && #[trigger] model_pre[kk].0
                                            == seg.cluster@;
                                    assert(labels_pre[kk]@ == model_pre[kk].0);
                                }
                            }
                            assert(step =~= model_pre.push(
                                (seg.cluster@, samples@.subrange(sa, sa + tn)),
                            ));
                            assert forall|w: int|
                                0 <= w < step.len() implies labels@[w]@ == step[w].0 && buffers@[w]@
                                == step[w].1 by {
                                if w < step.len() - 1 {
                                    assert(step[w] == model_pre[w]);
                                    assert(labels@[w] == labels_pre[w]);
                                    assert(buffers@[w] == buffers_pre[w]);
                                }
                            }
                            assert forall|a: int, b: int|
                                0 <= a < b < labels@.len() implies labels@[a]@ != labels@[b]@ by {
                                assert(labels@[a] == labels_pre[a]);
                                if b < labels@.len() - 1 {
                                    assert(labels@[b] == labels_pre[b]);
                                } else {
                                    assert(labels_pre[a]@ != seg.cluster@);
                                }
                            }
                        }
                    },
                }
            } else {
                proof {
                    assert(step == model_pre);
                }
            }
        } else {
            proof {
                assert(step == model_pre);
            }
        }
        i += 1;
    }
    proof {
        assert(segments@.take(segments@.len() as int) =~= segments@);
        let model = buckets_spec(samples@, sample_rate, target as int, segments@);
        assert forall|a: int, b: int| 0 <= a < b < model.len() implies model[a].0 != model[b].0 by {
            assert(labels@[a]@ == model[a].0);
            assert(labels@[b]@ == model[b].0);
        }
        assert forall|a: int|
            0 <= a < model.len() implies 1 <= (#[trigger] model[a].1).len() <= target by {
            assert(buffers@[a]@ == model[a].1);
        }
    }
    AudioBuckets { labels, buffers }
}

/// Repairs one segment's span against the clip duration.
fn patch_segment_exec(s: &DiarizedSegment, max_end: u64) -> (r: DiarizedSegment)
    ensures
        r == patched_segment(*s, max_end),
{
    let repaired: u64 = if s.end_ms == 0 || s.end_ms < s.start_ms {
        if s.start_ms <= u64::MAX - 1000 {
            s.start_ms + 1000
        } else {
            u64::MAX
        }
    } else {
        s.end_ms
    };
    let end_ms: u64 = if max_end > 0 && repaired > max_end {
        max_end
    } else {
        repaired
    };
    DiarizedSegment {
        cluster: s.cluster.clone(),
        start_ms: s.start_ms,
        end_ms,
        text: s.text.clone(),
    }
}

} // verus!

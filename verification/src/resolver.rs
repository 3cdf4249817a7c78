//! Speaker-identity resolution: mapping a session's diarized clusters to
//! durable speaker profiles.
//!
//! A resolution pass loads a consistent snapshot of the stored embeddings
//! and a starting counter for auto-generated labels, then resolves one
//! cluster at a time: the caller hands over the cluster's embedding vector
//! (as component bit patterns) together with the similarity score of that
//! vector against each snapshot entry (as single-precision bit patterns),
//! and the pass picks the best-scoring stored embedding of equal length —
//! ties keep the earliest candidate. At or above the match threshold the
//! cluster resolves to that embedding's speaker, auto-labeling the speaker
//! if it had no name yet; below it, or with nothing stored, a new speaker is
//! minted. Each resolved embedding is persisted and appended to the
//! snapshot, so a later cluster of the same pass can match it. Finally one
//! segment row is persisted per diarized segment, carrying the resolved
//! identity, or a cleared identity under the raw cluster label where no
//! audio was usable.

use vstd::prelude::*;

use crate::audio::DiarizedSegment;
use crate::bits::f32_bits_le;
use crate::bits::f32_le_bits;
use crate::crypto::AEAD_PT_LIMIT;
use crate::store::fits_payload;
use crate::store::lemma_readable_embeddings_members;
use crate::store::now_rfc3339;
use crate::store::opt_view;
use crate::store::Db;
use crate::store::StoredEmbedding;
use crate::vector::packed_bytes_of;
use vstd::utf8::encode_utf8;

verus! {

/// The bit pattern of the single-precision similarity threshold, the value
/// nearest 78/100: a best score at or above it resolves to the stored
/// speaker, anything below mints a new one.
pub const MATCH_THRESHOLD_BITS: u32 = 0x3F47_AE14;

/// The best-scoring snapshot entry among the first `n`, considering only
/// entries whose vector length equals the query's: a later entry displaces
/// the candidate only when its score is not at-most the candidate's, so
/// ties keep the earliest candidate, and an unordered (NaN) score displaces
/// it the way the underlying comparison does.
pub open spec fn best_candidate(
    known: Seq<StoredEmbedding>,
    scores: Seq<u32>,
    query_len: int,
    n: int,
) -> Option<int>
    decreases n,
{
    if n <= 0 {
        None
    } else {
        let prev = best_candidate(known, scores, query_len, n - 1);
        if known[n - 1].vector@.len() == query_len {
            match prev {
                None => Some(n - 1),
                Some(b) => if f32_bits_le(scores[n - 1], scores[b]) {
                    Some(b)
                } else {
                    Some(n - 1)
                },
            }
        } else {
            prev
        }
    }
}

/// Scans the snapshot for the stored embedding most similar to the query:
/// among entries of equal vector length, the strictly highest score wins and
/// ties keep the earliest; the winner is returned only at or above the match
/// threshold.
pub fn best_match(query_len: usize, known: &Vec<StoredEmbedding>, scores: &Vec<u32>) -> (r: Option<
    (usize, u32),
>)
    requires
        scores@.len() == known@.len(),
    ensures
        ({
            let cand = best_candidate(known@, scores@, query_len as int, known@.len() as int);
            match r {
                Some((idx, score)) => {
                    &&& cand == Some(idx as int)
                    &&& idx < known@.len()
                    &&& score == scores@[idx as int]
                    &&& known@[idx as int].vector@.len() == query_len
                    &&& f32_bits_le(MATCH_THRESHOLD_BITS, score)
                },
                None => match cand {
                    None => true,
                    Some(b) => !f32_bits_le(MATCH_THRESHOLD_BITS, scores@[b]),
                },
            }
        }),
{
    let mut best: Option<(usize, u32)> = None;
    let mut i: usize = 0;
    while i < known.len()
        invariant
            i <= known@.len(),
            scores@.len() == known@.len(),
            ({
                let cand = best_candidate(known@, scores@, query_len as int, i as int);
                match best {
                    Some((b, s)) => cand == Some(b as int) && b < i && s == scores@[b as int]
                        && known@[b as int].vector@.len() == query_len,
                    None => cand is None,
                }
            }),
        decreases known@.len() - i,
    {
        if known[i].vector.len() == query_len {
            match best {
                Some((_b, s)) => {
                    if !f32_le_bits(scores[i], s) {
                        best = Some((i, scores[i]));
                    }
                },
                None => {
                    best = Some((i, scores[i]));
                },
            }
        }
        i += 1;
    }
    match best {
        Some((b, s)) => {
            if f32_le_bits(MATCH_THRESHOLD_BITS, s) {
                Some((b, s))
            } else {
                None
            }
        },
        None => None,
    }
}

/// The decimal digit character of a value below ten.
pub open spec fn digit_char(d: int) -> char {
    if d == 0 {
        '0'
    } else if d == 1 {
        '1'
    } else if d == 2 {
        '2'
    } else if d == 3 {
        '3'
    } else if d == 4 {
        '4'
    } else if d == 5 {
        '5'
    } else if d == 6 {
        '6'
    } else if d == 7 {
        '7'
    } else if d == 8 {
        '8'
    } else {
        '9'
    }
}

/// The decimal digits of a number, most significant first.
pub open spec fn spec_decimal(n: nat) -> Seq<char>
    decreases n,
{
    if n < 10 {
        seq![digit_char(n as int)]
    } else {
        spec_decimal(n / 10).push(digit_char((n % 10) as int))
    }
}

/// The auto-generated display label for a running counter value.
pub open spec fn spec_generated_label(n: nat) -> Seq<char> {
    "Speaker "@ + spec_decimal(n)
}

/// Relies on std's `format` macro: an unsigned number renders as its decimal
/// digits, here after the fixed label prefix.
#[verifier::external_body]
fn format_speaker_label(n: u64) -> (r: String)
    ensures
        r@ == spec_generated_label(n as nat),
{
    format!("Speaker {}", n)
}

/// The identity a cluster label resolved to in this pass: the speaker
/// identifier and display label of its first assignment, if any.
pub open spec fn spec_assignment(
    assignments: Seq<(String, String, String)>,
    cluster: Seq<char>,
) -> Option<(Seq<char>, Seq<char>)>
    decreases assignments.len(),
{
    if assignments.len() == 0 {
        None
    } else if assignments.first().0@ == cluster {
        Some((assignments.first().1@, assignments.first().2@))
    } else {
        spec_assignment(assignments.drop_first(), cluster)
    }
}

/// An assignment the lookup returns names a speaker that one of the pass's
/// assignment entries names.
proof fn lemma_assignment_member(
    assignments: Seq<(String, String, String)>,
    cluster: Seq<char>,
    sid: Seq<char>,
    lab: Seq<char>,
)
    requires
        spec_assignment(assignments, cluster) == Some((sid, lab)),
    ensures
        exists|i: int| 0 <= i < assignments.len() && #[trigger] assignments[i].1@ == sid,
    decreases assignments.len(),
{
    if assignments.len() > 0 {
        if assignments.first().0@ == cluster {
            assert(assignments[0].1@ == sid);
        } else {
            lemma_assignment_member(assignments.drop_first(), cluster, sid, lab);
            let i = choose|i: int|
                0 <= i < assignments.drop_first().len()
                    && #[trigger] assignments.drop_first()[i].1@ == sid;
            assert(assignments[i + 1].1@ == sid);
        }
    }
}

/// Looks up the identity a cluster label resolved to in this pass.
fn find_assignment(assignments: &Vec<(String, String, String)>, cluster: &String) -> (r: Option<
    (String, String),
>)
    ensures
        match r {
            Some(pair) => spec_assignment(assignments@, cluster@) == Some((pair.0@, pair.1@)),
            None => spec_assignment(assignments@, cluster@) is None,
        },
{
    proof {
        assert(assignments@.skip(0) =~= assignments@);
    }
    let mut i: usize = 0;
    while i < assignments.len()
        invariant
            i <= assignments@.len(),
            spec_assignment(assignments@, cluster@) == spec_assignment(
                assignments@.skip(i as int),
                cluster@,
            ),
        decreases assignments@.len() - i,
    {
        proof {
            assert(assignments@.skip(i as int).first() == assignments@[i as int]);
            assert(assignments@.skip(i as int).drop_first() =~= assignments@.skip(i as int + 1));
        }
        if assignments[i].0 == *cluster {
            return Some((assignments[i].1.clone(), assignments[i].2.clone()));
        }
        i += 1;
    }
    proof {
        assert(assignments@.skip(assignments@.len() as int) =~= Seq::<(
            String,
            String,
            String,
        )>::empty());
    }
    None
}

/// One resolution pass over a session: the embedding snapshot, the running
/// label counter, and the cluster-to-identity assignments made so far.
pub struct ResolverPass {
    /// The stored embeddings read at the start of the pass, plus the ones
    /// this pass persisted — what the caller scores a query against.
    pub known: Vec<StoredEmbedding>,
    /// One past the number of speakers at the start of the pass, advanced on
    /// every auto-generated label.
    pub next_label_index: u64,
    /// Per resolved cluster label: the speaker identifier and display label
    /// it resolved to.
    pub assignments: Vec<(String, String, String)>,
}

impl ResolverPass {
    /// Every speaker this pass refers to — in the snapshot and in the
    /// assignments — exists in the store.
    pub open spec fn wf(self, db: Db) -> bool {
        &&& forall|i: int|
            0 <= i < self.known@.len() ==> db.spec_has_speaker(
                #[trigger] self.known@[i].speaker_id@,
            )
        &&& forall|i: int|
            0 <= i < self.assignments@.len() ==> db.spec_has_speaker(
                #[trigger] self.assignments@[i].1@,
            )
    }

    /// Starts a pass: loads the stored embeddings as one consistent
    /// snapshot and seeds the label counter one past the current speaker
    /// count. Fails exactly when the embedding listing does: on a row that
    /// refuses to decrypt.
    pub fn begin(db: &Db) -> (r: Result<ResolverPass, String>)
        requires
            db.wf(),
            db.spec_speakers().len() < u64::MAX,
        ensures
            match r {
                Ok(p) => {
                    &&& p.wf(*db)
                    &&& p.assignments@.len() == 0
                    &&& p.next_label_index == db.spec_speakers().len() + 1
                    &&& p.known@.len() == db.readable_embeddings().len()
                    &&& forall|i: int|
                        0 <= i < p.known@.len() ==> {
                            let row = db.readable_embeddings()[i];
                            let rec = #[trigger] p.known@[i];
                            &&& rec.id == row.id
                            &&& rec.speaker_id == row.speaker_id
                            &&& opt_view(rec.speaker_label) == db.spec_speaker_label(
                                row.speaker_id@,
                            )
                            &&& rec.vector@ == crate::vector::unpacked_words_of(
                                db.payload_of(row.vector_nonce@, row.vector_ct@).unwrap(),
                            )
                        }
                },
                Err(_) => exists|i: int|
                    0 <= i < db.spec_embeddings().len() && db.payload_of(
                        #[trigger] db.spec_embeddings()[i].vector_nonce@,
                        db.spec_embeddings()[i].vector_ct@,
                    ) is None,
            },
    {
        let known = match db.list_embeddings() {
            Ok(v) => v,
            Err(e) => {
                return Err(e);
            },
        };
        let speakers = match db.list_speakers() {
            Ok(v) => v,
            Err(e) => {
                return Err(e);
            },
        };
        let next_label_index: u64 = speakers.len() as u64 + 1;
        let pass = ResolverPass { known, next_label_index, assignments: Vec::new() };
        proof {
            lemma_readable_embeddings_members(*db);
            assert forall|i: int|
                0 <= i < pass.known@.len() implies db.spec_has_speaker(
                #[trigger] pass.known@[i].speaker_id@,
            ) by {
                assert(pass.known@[i].speaker_id == db.readable_embeddings()[i].speaker_id);
            }
        }
        Ok(pass)
    }

    /// Resolves one cluster. The caller hands over the cluster's embedding
    /// vector and its similarity score against each snapshot entry; the
    /// best-scoring equal-length entry wins at or above the threshold, in
    /// which case the cluster resolves to that entry's speaker — a speaker
    /// still without a label is auto-labeled from the running counter, and
    /// the label is denormalized onto its segments. Below the threshold, or
    /// with nothing comparable stored, a new speaker is minted under an
    /// auto-generated label. Either way the vector is persisted as a new
    /// embedding of the resolved speaker, with this session as provenance,
    /// and appended to the snapshot; the assignment is recorded for segment
    /// persistence. Fails only when a fresh row identifier collides, leaving
    /// the snapshot and assignments unchanged.
    pub fn resolve_cluster(
        &mut self,
        db: &mut Db,
        session_id: &str,
        cluster: String,
        vector: Vec<u32>,
        scores: &Vec<u32>,
    ) -> (r: Result<(), String>)
        requires
            old(db).wf(),
            old(self).wf(*old(db)),
            scores@.len() == old(self).known@.len(),
            4 * vector@.len() <= AEAD_PT_LIMIT,
            old(self).next_label_index < u64::MAX,
        ensures
            final(db).wf(),
            final(self).wf(*final(db)),
            Db::same_engine(*old(db), *final(db)),
            final(db).spec_sessions() == old(db).spec_sessions(),
            match r {
                Ok(_) => ({
                    let cand = best_candidate(
                        old(self).known@,
                        scores@,
                        vector@.len() as int,
                        old(self).known@.len() as int,
                    );
                    let matched = cand is Some && f32_bits_le(
                        MATCH_THRESHOLD_BITS,
                        scores@[cand.unwrap()],
                    );
                    let emb = final(db).spec_embeddings().last();
                    &&& final(db).spec_embeddings().len() == old(db).spec_embeddings().len() + 1
                    &&& final(db).spec_embeddings().drop_last() =~= old(db).spec_embeddings()
                    &&& final(db).payload_of(emb.vector_nonce@, emb.vector_ct@) == Some(
                        packed_bytes_of(vector@),
                    )
                    &&& emb.source_session_id@ == session_id@
                    &&& final(self).known@.len() == old(self).known@.len() + 1
                    &&& final(self).known@.drop_last() =~= old(self).known@
                    &&& final(self).known@.last().speaker_id@ == emb.speaker_id@
                    &&& final(self).known@.last().vector@ == vector@
                    &&& final(self).assignments@.len() == old(self).assignments@.len() + 1
                    &&& final(self).assignments@.drop_last() =~= old(self).assignments@
                    &&& final(self).assignments@.last().0 == cluster
                    &&& final(self).assignments@.last().1@ == emb.speaker_id@
                    &&& opt_view(final(self).known@.last().speaker_label) == Some(
                        final(self).assignments@.last().2@,
                    )
                    &&& if matched {
                        let m = old(self).known@[cand.unwrap()];
                        &&& emb.speaker_id@ == m.speaker_id@
                        &&& final(db).spec_speakers().len() == old(db).spec_speakers().len()
                        &&& match m.speaker_label {
                            Some(l) => {
                                &&& final(self).assignments@.last().2@ == l@
                                &&& final(db).spec_speakers() == old(db).spec_speakers()
                                &&& final(db).spec_segments() == old(db).spec_segments()
                                &&& final(self).next_label_index == old(self).next_label_index
                            },
                            None => {
                                &&& final(self).assignments@.last().2@ == spec_generated_label(
                                    old(self).next_label_index as nat,
                                )
                                &&& final(self).next_label_index == old(self).next_label_index + 1
                                &&& final(db).spec_segments().len() == old(
                                    db,
                                ).spec_segments().len()
                                &&& forall|i: int|
                                    0 <= i < old(db).spec_speakers().len() ==> {
                                        let pre = old(db).spec_speakers()[i];
                                        let post = #[trigger] final(db).spec_speakers()[i];
                                        if pre.id@ == m.speaker_id@ {
                                            &&& post.id == pre.id
                                            &&& post.created_at == pre.created_at
                                            &&& opt_view(post.label) == Some(
                                                spec_generated_label(
                                                    old(self).next_label_index as nat,
                                                ),
                                            )
                                        } else {
                                            post == pre
                                        }
                                    }
                                &&& forall|i: int|
                                    0 <= i < old(db).spec_segments().len() ==> {
                                        let pre = old(db).spec_segments()[i];
                                        let post = #[trigger] final(db).spec_segments()[i];
                                        if opt_view(pre.speaker_id) == Some(m.speaker_id@) {
                                            opt_view(post.speaker_label) == Some(
                                                spec_generated_label(
                                                    old(self).next_label_index as nat,
                                                ),
                                            )
                                        } else {
                                            post == pre
                                        }
                                    }
                            },
                        }
                    } else {
                        &&& final(db).spec_segments() == old(db).spec_segments()
                        &&& final(db).spec_speakers().len() == old(db).spec_speakers().len() + 1
                        &&& final(db).spec_speakers().drop_last() =~= old(db).spec_speakers()
                        &&& final(db).spec_speakers().last().id@ == emb.speaker_id@
                        &&& opt_view(final(db).spec_speakers().last().label) == Some(
                            spec_generated_label(old(self).next_label_index as nat),
                        )
                        &&& final(self).assignments@.last().2@ == spec_generated_label(
                            old(self).next_label_index as nat,
                        )
                        &&& final(self).next_label_index == old(self).next_label_index + 1
                    }
                }),
                Err(_) => {
                    &&& final(self).known@ == old(self).known@
                    &&& final(self).assignments@ == old(self).assignments@
                    &&& final(db).spec_embeddings() == old(db).spec_embeddings()
                    &&& final(db).spec_segments().len() == old(db).spec_segments().len()
                },
            },
    {
        let ghost db0 = *old(db);
        let query_len = vector.len();
        let picked = best_match(query_len, &self.known, scores);
        let resolved_speaker_id: String;
        let resolved_label: String;
        match picked {
            Some((idx, _score)) => {
                let matched_speaker_id = self.known[idx].speaker_id.clone();
                let mut renamed = false;
                let label: String = match &self.known[idx].speaker_label {
                    Some(l) => l.clone(),
                    None => {
                        renamed = true;
                        format_speaker_label(self.next_label_index)
                    },
                };
                proof {
                    assert(old(self).known@[idx as int].speaker_id@ == matched_speaker_id@);
                    assert(db0.spec_has_speaker(matched_speaker_id@));
                }
                if renamed {
                    self.next_label_index = self.next_label_index + 1;
                    match db.rename_speaker(matched_speaker_id.as_str(), label.as_str()) {
                        Ok(_) => {},
                        Err(e) => {
                            return Err(e);
                        },
                    }
                    proof {
                        lemma_speakers_keep_ids(db0, *db);
                    }
                }
                proof {
                    assert(db.spec_has_speaker(matched_speaker_id@));
                }
                resolved_speaker_id = matched_speaker_id;
                resolved_label = label;
            },
            None => {
                let label = format_speaker_label(self.next_label_index);
                self.next_label_index = self.next_label_index + 1;
                let new_id = match db.insert_speaker(Some(label.as_str())) {
                    Ok(id) => id,
                    Err(e) => {
                        return Err(e);
                    },
                };
                proof {
                    assert(db.spec_speakers().last().id@ == new_id@);
                }
                resolved_speaker_id = new_id;
                resolved_label = label;
            },
        }
        proof {
            assert(db.spec_has_speaker(resolved_speaker_id@));
        }
        let emb_id = match db.insert_embedding(resolved_speaker_id.as_str(), session_id, &vector) {
            Ok(id) => id,
            Err(e) => {
                return Err(e);
            },
        };
        let ghost known_pre = self.known@;
        let ghost assignments_pre = self.assignments@;
        self.assignments.push((cluster, resolved_speaker_id.clone(), resolved_label.clone()));
        self.known.push(
            StoredEmbedding {
                id: emb_id,
                speaker_id: resolved_speaker_id,
                speaker_label: Some(resolved_label),
                vector,
                source_session_id: session_id.to_owned(),
                created_at: now_rfc3339(),
            },
        );
        proof {
            assert(self.known@.drop_last() =~= known_pre);
            assert(self.assignments@.drop_last() =~= assignments_pre);
            lemma_speakers_keep_members(db0, *db);
            assert forall|i: int|
                0 <= i < self.known@.len() implies db.spec_has_speaker(
                #[trigger] self.known@[i].speaker_id@,
            ) by {
                if i < self.known@.len() - 1 {
                    assert(self.known@[i] == known_pre[i]);
                    assert(db0.spec_has_speaker(known_pre[i].speaker_id@));
                }
            }
            assert forall|i: int|
                0 <= i < self.assignments@.len() implies db.spec_has_speaker(
                #[trigger] self.assignments@[i].1@,
            ) by {
                if i < self.assignments@.len() - 1 {
                    assert(self.assignments@[i] == assignments_pre[i]);
                    assert(db0.spec_has_speaker(assignments_pre[i].1@));
                }
            }
        }
        Ok(())
    }

    /// Persists one segment row per diarized segment, in order: a segment
    /// whose cluster resolved in this pass carries the resolved identity and
    /// label; one whose cluster produced no usable audio is stored with a
    /// cleared identity under its raw cluster label. Fails only when a fresh
    /// row identifier collides, leaving the rows already inserted in place —
    /// rows are appended one at a time, earlier segments first.
    pub fn persist_segments(
        &self,
        db: &mut Db,
        session_id: &str,
        segments: &Vec<DiarizedSegment>,
    ) -> (r: Result<(), String>)
        requires
            old(db).wf(),
            self.wf(*old(db)),
            forall|i: int| 0 <= i < segments@.len() ==> fits_payload(#[trigger] segments@[i].text@),
            forall|i: int|
                0 <= i < segments@.len() ==> (#[trigger] segments@[i].start_ms) <= i64::MAX as u64
                    && segments@[i].end_ms <= i64::MAX as u64,
        ensures
            final(db).wf(),
            self.wf(*final(db)),
            Db::same_engine(*old(db), *final(db)),
            final(db).spec_sessions() == old(db).spec_sessions(),
            final(db).spec_speakers() == old(db).spec_speakers(),
            final(db).spec_embeddings() == old(db).spec_embeddings(),
            final(db).spec_segments().len() >= old(db).spec_segments().len(),
            final(db).spec_segments().len() <= old(db).spec_segments().len() + segments@.len(),
            forall|k: int|
                0 <= k < old(db).spec_segments().len() ==> #[trigger] final(db).spec_segments()[k]
                    == old(db).spec_segments()[k],
            forall|m: int|
                old(db).spec_segments().len() <= m < final(db).spec_segments().len() ==> ({
                    let seg = segments@[m - old(db).spec_segments().len()];
                    let row = #[trigger] final(db).spec_segments()[m];
                    &&& row.session_id@ == session_id@
                    &&& row.start_ms == seg.start_ms as i64
                    &&& row.end_ms == seg.end_ms as i64
                    &&& old(db).payload_of(row.text_nonce@, row.text_ct@) == Some(
                        encode_utf8(seg.text@),
                    )
                    &&& match spec_assignment(self.assignments@, seg.cluster@) {
                        Some(pair) => opt_view(row.speaker_id) == Some(pair.0) && opt_view(
                            row.speaker_label,
                        ) == Some(pair.1),
                        None => row.speaker_id is None && opt_view(row.speaker_label) == Some(
                            seg.cluster@,
                        ),
                    }
                }),
            match r {
                Ok(_) => final(db).spec_segments().len() == old(db).spec_segments().len()
                    + segments@.len(),
                Err(_) => final(db).spec_segments().len() < old(db).spec_segments().len()
                    + segments@.len(),
            },
    {
        let ghost db0 = *old(db);
        let base = db.segment_rows().len();
        let mut j: usize = 0;
        while j < segments.len()
            invariant
                db0 == *old(db),
                db.wf(),
                self.wf(db0),
                Db::same_engine(db0, *db),
                db.spec_sessions() == db0.spec_sessions(),
                db.spec_speakers() == db0.spec_speakers(),
                db.spec_embeddings() == db0.spec_embeddings(),
                base == db0.spec_segments().len(),
                j <= segments@.len(),
                db.spec_segments().len() == base + j,
                forall|k: int|
                    0 <= k < base ==> #[trigger] db.spec_segments()[k] == db0.spec_segments()[k],
                forall|i: int|
                    0 <= i < segments@.len() ==> fits_payload(#[trigger] segments@[i].text@),
                forall|i: int|
                    0 <= i < segments@.len() ==> (#[trigger] segments@[i].start_ms)
                        <= i64::MAX as u64 && segments@[i].end_ms <= i64::MAX as u64,
                forall|m: int|
                    base <= m < base + j ==> ({
                        let seg = segments@[m - base];
                        let row = #[trigger] db.spec_segments()[m];
                        &&& row.session_id@ == session_id@
                        &&& row.start_ms == seg.start_ms as i64
                        &&& row.end_ms == seg.end_ms as i64
                        &&& db0.payload_of(row.text_nonce@, row.text_ct@) == Some(
                            encode_utf8(seg.text@),
                        )
                        &&& match spec_assignment(self.assignments@, seg.cluster@) {
                            Some(pair) => opt_view(row.speaker_id) == Some(pair.0) && opt_view(
                                row.speaker_label,
                            ) == Some(pair.1),
                            None => row.speaker_id is None && opt_view(row.speaker_label) == Some(
                                seg.cluster@,
                            ),
                        }
                    }),
            decreases segments@.len() - j,
        {
            let seg = &segments[j];
            let ghost segs_pre = db.spec_segments();
            let assignment = find_assignment(&self.assignments, &seg.cluster);
            let res = match &assignment {
                Some(pair) => {
                    proof {
                        lemma_assignment_member(self.assignments@, seg.cluster@, pair.0@, pair.1@);
                        let i = choose|i: int|
                            0 <= i < self.assignments@.len() && #[trigger] self.assignments@[i].1@
                                == pair.0@;
                        assert(db0.spec_has_speaker(self.assignments@[i].1@));
                    }
                    db.insert_segment(
                        session_id,
                        seg.start_ms as i64,
                        seg.end_ms as i64,
                        Some(pair.0.as_str()),
                        Some(pair.1.as_str()),
                        seg.text.as_str(),
                    )
                },
                None => db.insert_segment(
                    session_id,
                    seg.start_ms as i64,
                    seg.end_ms as i64,
                    None,
                    Some(seg.cluster.as_str()),
                    seg.text.as_str(),
                ),
            };
            match res {
                Ok(_) => {
                    proof {
                        assert(db.spec_segments().drop_last() =~= segs_pre);
                        assert forall|k: int|
                            0 <= k < base + j implies #[trigger] db.spec_segments()[k]
                            == segs_pre[k] by {
                            assert(db.spec_segments()[k] == db.spec_segments().drop_last()[k]);
                        }
                        assert(db.spec_segments()[base + j] == db.spec_segments().last());
                    }
                },
                Err(e) => {
                    return Err(e);
                },
            }
            j += 1;
        }
        Ok(())
    }
}

/// Renaming keeps every speaker row's identifier in place.
proof fn lemma_speakers_keep_ids(pre: Db, post: Db)
    requires
        post.spec_speakers().len() == pre.spec_speakers().len(),
        forall|i: int|
            0 <= i < pre.spec_speakers().len() ==> #[trigger] post.spec_speakers()[i].id@
                == pre.spec_speakers()[i].id@,
    ensures
        forall|x: Seq<char>| pre.spec_has_speaker(x) ==> #[trigger] post.spec_has_speaker(x),
{
    assert forall|x: Seq<char>|
        pre.spec_has_speaker(x) implies #[trigger] post.spec_has_speaker(x) by {
        let i = choose|i: int|
            0 <= i < pre.spec_speakers().len() && #[trigger] pre.spec_speakers()[i].id@ == x;
        assert(post.spec_speakers()[i].id@ == x);
    }
}

/// A store whose speaker table only kept or gained rows, identifiers in
/// place, still knows every speaker it knew.
proof fn lemma_speakers_keep_members(pre: Db, post: Db)
    requires
        post.spec_speakers().len() >= pre.spec_speakers().len(),
        forall|i: int|
            0 <= i < pre.spec_speakers().len() ==> #[trigger] post.spec_speakers()[i].id@
                == pre.spec_speakers()[i].id@,
    ensures
        forall|x: Seq<char>| pre.spec_has_speaker(x) ==> #[trigger] post.spec_has_speaker(x),
{
    assert forall|x: Seq<char>|
        pre.spec_has_speaker(x) implies #[trigger] post.spec_has_speaker(x) by {
        let i = choose|i: int|
            0 <= i < pre.spec_speakers().len() && #[trigger] pre.spec_speakers()[i].id@ == x;
        assert(post.spec_speakers()[i].id@ == x);
    }
}

} // verus!

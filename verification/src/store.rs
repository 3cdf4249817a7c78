//! The encrypted store: sessions, speakers, segments, and embeddings.
//!
//! The store holds the rows of the backing schema — `meta`, `sessions`,
//! `speakers`, `segments`, `embeddings` — with every sensitive field kept in
//! its at-rest shape, a `(nonce, ciphertext)` pair of base64 strings produced
//! by the [`crate::crypto::Crypto`] engine. Operations encrypt on the way in
//! and decrypt on the way out; listings fail closed when any row refuses to
//! decrypt, except for an embedding whose decrypted payload has an impossible
//! length, which is skipped as corrupt rather than sinking the whole listing.
//!
//! The well-formedness invariant [`Db::wf`] pins the relational rules the
//! backing schema cannot express itself: row identifiers are unique per
//! table, every embedding's `speaker_id` references an existing speaker, and
//! so does every segment's `speaker_id` where present. Deletes cascade
//! atomically here, which closes the partial-failure gap of issuing a
//! cascade as separate statements.

use vstd::prelude::*;

use crate::crypto::Crypto;
use crate::crypto::AEAD_PT_LIMIT;
use crate::vector::packed_bytes_of;
use crate::vector::unpacked_words_of;
use crate::vector::pack_words;
use crate::vector::unpack_words;
use vstd::utf8::decode_utf8;
use vstd::utf8::encode_utf8;
use vstd::utf8::valid_utf8;

verus! {

/// A `sessions` row, fields in their at-rest shape.
#[derive(Debug, Clone)]
pub struct SessionRow {
    pub id: String,
    pub created_at: String,
    pub transcript_nonce: String,
    pub transcript_ct: String,
}

/// A `speakers` row.
#[derive(Debug, Clone)]
pub struct SpeakerRow {
    pub id: String,
    pub label: Option<String>,
    pub created_at: String,
}

/// A `segments` row, text in its at-rest shape.
#[derive(Debug, Clone)]
pub struct SegmentRow {
    pub id: String,
    pub session_id: String,
    pub start_ms: i64,
    pub end_ms: i64,
    pub speaker_label: Option<String>,
    pub speaker_id: Option<String>,
    pub text_nonce: String,
    pub text_ct: String,
}

/// An `embeddings` row, vector in its at-rest shape.
#[derive(Debug, Clone)]
pub struct EmbeddingRow {
    pub id: String,
    pub speaker_id: String,
    pub vector_nonce: String,
    pub vector_ct: String,
    pub source_session_id: String,
    pub created_at: String,
}

/// A session as listings return it, transcript decrypted.
#[derive(Debug, Clone)]
pub struct Session {
    pub id: String,
    pub created_at: String,
    pub transcript: String,
}

/// A speaker as listings return it.
#[derive(Debug, Clone)]
pub struct Speaker {
    pub id: String,
    pub label: Option<String>,
    pub created_at: String,
}

/// A segment as listings return it, text decrypted.
#[derive(Debug, Clone)]
pub struct SegmentRecord {
    pub id: String,
    pub session_id: String,
    pub start_ms: i64,
    pub end_ms: i64,
    pub speaker_id: Option<String>,
    pub speaker_label: Option<String>,
    pub text: String,
}

/// A stored embedding as listings return it: vector decrypted and unpacked
/// into component bit patterns, with the owning speaker's label joined on.
#[derive(Debug, Clone)]
pub struct StoredEmbedding {
    pub id: String,
    pub speaker_id: String,
    pub speaker_label: Option<String>,
    pub vector: Vec<u32>,
    pub source_session_id: String,
    pub created_at: String,
}

/// The view of an optional string.
pub open spec fn opt_view(o: Option<String>) -> Option<Seq<char>> {
    match o {
        Some(s) => Some(s@),
        None => None,
    }
}

/// Whether some session row carries this identifier.
pub open spec fn has_session_id(s: Seq<SessionRow>, id: Seq<char>) -> bool {
    exists|i: int| 0 <= i < s.len() && #[trigger] s[i].id@ == id
}

/// Whether some speaker row carries this identifier.
pub open spec fn has_speaker_id(s: Seq<SpeakerRow>, id: Seq<char>) -> bool {
    exists|i: int| 0 <= i < s.len() && #[trigger] s[i].id@ == id
}

/// Whether some segment row carries this identifier.
pub open spec fn has_segment_id(s: Seq<SegmentRow>, id: Seq<char>) -> bool {
    exists|i: int| 0 <= i < s.len() && #[trigger] s[i].id@ == id
}

/// Whether some embedding row carries this identifier.
pub open spec fn has_embedding_id(s: Seq<EmbeddingRow>, id: Seq<char>) -> bool {
    exists|i: int| 0 <= i < s.len() && #[trigger] s[i].id@ == id
}

/// No two session rows share an identifier.
pub open spec fn sessions_distinct(s: Seq<SessionRow>) -> bool {
    forall|i: int, j: int| 0 <= i < j < s.len() ==> s[i].id@ != s[j].id@
}

/// No two speaker rows share an identifier.
pub open spec fn speakers_distinct(s: Seq<SpeakerRow>) -> bool {
    forall|i: int, j: int| 0 <= i < j < s.len() ==> s[i].id@ != s[j].id@
}

/// No two segment rows share an identifier.
pub open spec fn segments_distinct(s: Seq<SegmentRow>) -> bool {
    forall|i: int, j: int| 0 <= i < j < s.len() ==> s[i].id@ != s[j].id@
}

/// No two embedding rows share an identifier.
pub open spec fn embeddings_distinct(s: Seq<EmbeddingRow>) -> bool {
    forall|i: int, j: int| 0 <= i < j < s.len() ==> s[i].id@ != s[j].id@
}

/// The label of the first speaker row with this identifier, where one
/// exists. Under [`Db::wf`] at most one row can match.
pub open spec fn speaker_label_in(s: Seq<SpeakerRow>, id: Seq<char>) -> Option<Seq<char>> {
    if has_speaker_id(s, id) {
        let i = choose|i: int| 0 <= i < s.len() && #[trigger] s[i].id@ == id;
        opt_view(s[i].label)
    } else {
        None
    }
}

/// The characters a decrypted text payload stands for: the UTF-8 decoding
/// when the bytes are valid UTF-8, the empty string otherwise.
pub open spec fn text_of_bytes(b: Seq<u8>) -> Seq<char> {
    if valid_utf8(b) {
        decode_utf8(b)
    } else {
        Seq::empty()
    }
}

/// A text payload that authenticated encryption accepts.
pub open spec fn fits_payload(s: Seq<char>) -> bool {
    encode_utf8(s).len() <= AEAD_PT_LIMIT
}

/// Reading back an encoded text gives the text: whatever was written comes
/// out unchanged once decryption recovers the written bytes.
pub proof fn lemma_text_round_trip(s: Seq<char>)
    ensures
        text_of_bytes(encode_utf8(s)) == s,
{
    vstd::utf8::encode_utf8_valid_utf8(s);
    vstd::utf8::encode_utf8_decode_utf8(s);
}

/// Relies on uuid's `Uuid::new_v4` and its display form: a fresh random
/// version-4 identifier, rendered as the 36-character hyphenated string.
/// Nothing is promised about which identifier comes out.
#[verifier::external_body]
fn new_uuid() -> (r: String)
    ensures
        r@.len() == 36,
{
    uuid::Uuid::new_v4().to_string()
}

/// Relies on chrono's `Utc::now().to_rfc3339()`: the current wall-clock time
/// in RFC 3339 form. The result depends on the clock, so nothing is promised
/// of it.
#[verifier::external_body]
pub(crate) fn now_rfc3339() -> String {
    chrono::Utc::now().to_rfc3339()
}

/// Relies on std's `String::from_utf8`: it succeeds exactly on valid UTF-8,
/// returning the characters the bytes encode; this wrapper substitutes the
/// empty string otherwise, as the listings do.
#[verifier::external_body]
fn string_from_utf8_or_default(b: Vec<u8>) -> (r: String)
    ensures
        r@ == text_of_bytes(b@),
{
    String::from_utf8(b).unwrap_or_default()
}

/// A copy of an optional string, equal to the original.
fn clone_opt_string(o: &Option<String>) -> (r: Option<String>)
    ensures
        r == *o,
{
    match o {
        Some(s) => Some(s.clone()),
        None => None,
    }
}

/// A copy of a session row, equal to the original.
fn clone_session_row(r: &SessionRow) -> (c: SessionRow)
    ensures
        c == *r,
{
    SessionRow {
        id: r.id.clone(),
        created_at: r.created_at.clone(),
        transcript_nonce: r.transcript_nonce.clone(),
        transcript_ct: r.transcript_ct.clone(),
    }
}

/// A copy of a speaker row, equal to the original.
fn clone_speaker_row(r: &SpeakerRow) -> (c: SpeakerRow)
    ensures
        c == *r,
{
    SpeakerRow { id: r.id.clone(), label: clone_opt_string(&r.label), created_at: r.created_at.clone() }
}

/// A copy of a segment row, equal to the original.
fn clone_segment_row(r: &SegmentRow) -> (c: SegmentRow)
    ensures
        c == *r,
{
    SegmentRow {
        id: r.id.clone(),
        session_id: r.session_id.clone(),
        start_ms: r.start_ms,
        end_ms: r.end_ms,
        speaker_label: clone_opt_string(&r.speaker_label),
        speaker_id: clone_opt_string(&r.speaker_id),
        text_nonce: r.text_nonce.clone(),
        text_ct: r.text_ct.clone(),
    }
}

/// A copy of an embedding row, equal to the original.
fn clone_embedding_row(r: &EmbeddingRow) -> (c: EmbeddingRow)
    ensures
        c == *r,
{
    EmbeddingRow {
        id: r.id.clone(),
        speaker_id: r.speaker_id.clone(),
        vector_nonce: r.vector_nonce.clone(),
        vector_ct: r.vector_ct.clone(),
        source_session_id: r.source_session_id.clone(),
        created_at: r.created_at.clone(),
    }
}

/// Filtering one more element appends it when the predicate keeps it and
/// drops it otherwise.
proof fn lemma_filter_take_step<A>(s: Seq<A>, i: int, pred: spec_fn(A) -> bool)
    requires
        0 <= i < s.len(),
    ensures
        s.take(i + 1).filter(pred) == if pred(s[i]) {
            s.take(i).filter(pred).push(s[i])
        } else {
            s.take(i).filter(pred)
        },
{
    let prefix = s.take(i);
    let one = seq![s[i]];
    assert(s.take(i + 1) =~= prefix + one);
    Seq::filter_distributes_over_add(prefix, one, pred);
    reveal_with_fuel(Seq::filter, 2);
    assert(one.drop_last() =~= Seq::<A>::empty());
    if pred(s[i]) {
        assert(one.filter(pred) =~= seq![s[i]]);
        assert(prefix.filter(pred) + seq![s[i]] =~= prefix.filter(pred).push(s[i]));
    } else {
        assert(one.filter(pred) =~= Seq::<A>::empty());
        assert(prefix.filter(pred) + one.filter(pred) =~= prefix.filter(pred));
    }
}

/// Every element of a filtered sequence is an element of the original.
proof fn lemma_filter_elements<A>(s: Seq<A>, pred: spec_fn(A) -> bool)
    ensures
        forall|k: int|
            0 <= k < s.filter(pred).len() ==> s.contains(#[trigger] s.filter(pred)[k]),
{
    assert forall|k: int|
        0 <= k < s.filter(pred).len() implies s.contains(#[trigger] s.filter(pred)[k]) by {
        assert(s.filter(pred).contains(s.filter(pred)[k]));
        s.lemma_filter_contains_rev(pred, s.filter(pred)[k]);
    }
}

/// Filtering keeps projections distinct: rows whose identifiers never repeat
/// still never repeat once some are dropped.
proof fn lemma_filter_distinct_by<A>(s: Seq<A>, pred: spec_fn(A) -> bool, f: spec_fn(A) -> Seq<char>)
    requires
        forall|i: int, j: int| 0 <= i < j < s.len() ==> f(s[i]) != f(s[j]),
    ensures
        forall|i: int, j: int|
            0 <= i < j < s.filter(pred).len() ==> f(s.filter(pred)[i]) != f(s.filter(pred)[j]),
    decreases s.len(),
{
    reveal_with_fuel(Seq::filter, 2);
    if s.len() > 0 {
        let rest = s.drop_last();
        assert forall|i: int, j: int| 0 <= i < j < rest.len() implies f(rest[i]) != f(rest[j]) by {
            assert(rest[i] == s[i]);
            assert(rest[j] == s[j]);
        }
        lemma_filter_distinct_by(rest, pred, f);
        lemma_filter_elements(rest, pred);
        let sub = rest.filter(pred);
        let out = s.filter(pred);
        if pred(s.last()) {
            assert(out == sub.push(s.last()));
            assert forall|i: int, j: int| 0 <= i < j < out.len() implies f(out[i]) != f(out[j]) by {
                if j < out.len() - 1 {
                    assert(out[i] == sub[i]);
                    assert(out[j] == sub[j]);
                } else {
                    assert(out[j] == s.last());
                    assert(out[i] == sub[i]);
                    assert(rest.contains(sub[i]));
                    let w = choose|w: int| 0 <= w < rest.len() && rest[w] == sub[i];
                    assert(rest[w] == s[w]);
                    assert(f(s[w]) != f(s[s.len() - 1]));
                }
            }
        } else {
            assert(out == sub);
        }
    }
}

/// The store. Owns the engine; every field payload passes through it.
pub struct Db {
    crypto: Crypto,
    /// Whether field payloads are actually encrypted at rest.
    pub encrypted: bool,
    salt_meta: Option<String>,
    sessions: Vec<SessionRow>,
    speakers: Vec<SpeakerRow>,
    segments: Vec<SegmentRow>,
    embeddings: Vec<EmbeddingRow>,
}

impl Db {
    /// The engine in use.
    pub closed spec fn spec_crypto(self) -> Crypto {
        self.crypto
    }

    /// The `encrypted` flag, as the contracts speak of it.
    pub closed spec fn spec_encrypted(self) -> bool {
        self.encrypted
    }

    /// The persisted `meta` salt row, if any.
    pub closed spec fn spec_salt_meta(self) -> Option<Seq<char>> {
        opt_view(self.salt_meta)
    }

    /// The `sessions` rows, in insertion order.
    pub closed spec fn spec_sessions(self) -> Seq<SessionRow> {
        self.sessions@
    }

    /// The `speakers` rows, in insertion order.
    pub closed spec fn spec_speakers(self) -> Seq<SpeakerRow> {
        self.speakers@
    }

    /// The `segments` rows, in insertion order.
    pub closed spec fn spec_segments(self) -> Seq<SegmentRow> {
        self.segments@
    }

    /// The `embeddings` rows, in insertion order.
    pub closed spec fn spec_embeddings(self) -> Seq<EmbeddingRow> {
        self.embeddings@
    }

    /// Whether a speaker with this identifier exists.
    pub open spec fn spec_has_speaker(self, id: Seq<char>) -> bool {
        has_speaker_id(self.spec_speakers(), id)
    }

    /// The label of the speaker with this identifier, where one exists.
    pub open spec fn spec_speaker_label(self, id: Seq<char>) -> Option<Seq<char>> {
        speaker_label_in(self.spec_speakers(), id)
    }

    /// The embedding rows the listing emits: those whose payload this
    /// store's engine recovers with a whole number of components.
    pub open spec fn readable_embeddings(self) -> Seq<EmbeddingRow> {
        self.spec_embeddings().filter(|x: EmbeddingRow| emb_readable(self.spec_crypto(), x))
    }

    /// What this store's engine recovers from a row's at-rest pair.
    pub open spec fn payload_of(self, nonce: Seq<char>, ct: Seq<char>) -> Option<Seq<u8>> {
        self.spec_crypto().decryption_of(nonce, ct)
    }

    /// The relational rules the store maintains: a well-formed engine whose
    /// keyed state matches the `encrypted` flag; identifiers unique per
    /// table; every embedding owned by an existing speaker; every segment's
    /// speaker reference, where present, pointing at an existing speaker.
    pub open spec fn wf(self) -> bool {
        &&& self.spec_crypto().wf()
        &&& self.spec_encrypted() == self.spec_crypto().keyed()
        &&& sessions_distinct(self.spec_sessions())
        &&& speakers_distinct(self.spec_speakers())
        &&& segments_distinct(self.spec_segments())
        &&& embeddings_distinct(self.spec_embeddings())
        &&& forall|i: int|
            0 <= i < self.spec_embeddings().len() ==> self.spec_has_speaker(
                #[trigger] self.spec_embeddings()[i].speaker_id@,
            )
        &&& forall|i: int|
            0 <= i < self.spec_segments().len()
                ==> match #[trigger] self.spec_segments()[i].speaker_id {
                Some(s) => self.spec_has_speaker(s@),
                None => true,
            }
    }

    /// The engine, the salt row, and the encryption flag are as they were.
    pub open spec fn same_engine(pre: Db, post: Db) -> bool {
        &&& post.spec_crypto() == pre.spec_crypto()
        &&& post.spec_salt_meta() == pre.spec_salt_meta()
        &&& post.spec_encrypted() == pre.spec_encrypted()
    }

    /// Opens a fresh store under the given engine: empty tables, and — the
    /// salt lifecycle anchor — the engine's salt persisted into the `meta`
    /// row, so a later unlock can re-derive the same key. An engine without
    /// a salt leaves the row absent.
    pub fn open(crypto: Crypto) -> (r: Db)
        requires
            crypto.wf(),
        ensures
            r.wf(),
            r.spec_crypto() == crypto,
            r.spec_salt_meta() == crypto.spec_salt(),
            r.spec_encrypted() == crypto.keyed(),
            r.spec_sessions() =~= Seq::<SessionRow>::empty(),
            r.spec_speakers() =~= Seq::<SpeakerRow>::empty(),
            r.spec_segments() =~= Seq::<SegmentRow>::empty(),
            r.spec_embeddings() =~= Seq::<EmbeddingRow>::empty(),
    {
        let encrypted = crypto.is_keyed();
        let salt_meta = crypto.salt();
        Db {
            crypto,
            encrypted,
            salt_meta,
            sessions: Vec::new(),
            speakers: Vec::new(),
            segments: Vec::new(),
            embeddings: Vec::new(),
        }
    }

    /// Opens a store over previously persisted rows under the given engine,
    /// validating the relational rules the backing file cannot enforce:
    /// identifiers unique per table, every embedding's owner present, every
    /// segment's speaker reference, where present, pointing at an existing
    /// speaker. Succeeds exactly when the rows pass; a violation reports the
    /// store as corrupt and adopts nothing. The salt lifecycle holds: an
    /// already-persisted salt row is never overwritten, and a keyed engine's
    /// salt is persisted only where none exists yet.
    pub fn open_existing(
        crypto: Crypto,
        salt_meta: Option<String>,
        sessions: Vec<SessionRow>,
        speakers: Vec<SpeakerRow>,
        segments: Vec<SegmentRow>,
        embeddings: Vec<EmbeddingRow>,
    ) -> (r: Result<Db, String>)
        requires
            crypto.wf(),
        ensures
            ({
                let valid = {
                    &&& sessions_distinct(sessions@)
                    &&& speakers_distinct(speakers@)
                    &&& segments_distinct(segments@)
                    &&& embeddings_distinct(embeddings@)
                    &&& forall|i: int|
                        0 <= i < embeddings@.len() ==> has_speaker_id(
                            speakers@,
                            #[trigger] embeddings@[i].speaker_id@,
                        )
                    &&& forall|i: int|
                        0 <= i < segments@.len() ==> match #[trigger] segments@[i].speaker_id {
                            Some(s) => has_speaker_id(speakers@, s@),
                            None => true,
                        }
                };
                match r {
                    Ok(db) => {
                        &&& valid
                        &&& db.wf()
                        &&& db.spec_crypto() == crypto
                        &&& db.spec_encrypted() == crypto.keyed()
                        &&& db.spec_salt_meta() == match salt_meta {
                            Some(s) => Some(s@),
                            None => crypto.spec_salt(),
                        }
                        &&& db.spec_sessions() == sessions@
                        &&& db.spec_speakers() == speakers@
                        &&& db.spec_segments() == segments@
                        &&& db.spec_embeddings() == embeddings@
                    },
                    Err(_) => !valid,
                }
            }),
    {
        if !sessions_ids_distinct(&sessions) {
            return Err("corrupt store: duplicate session id".to_owned());
        }
        if !speakers_ids_distinct(&speakers) {
            return Err("corrupt store: duplicate speaker id".to_owned());
        }
        if !segments_ids_distinct(&segments) {
            return Err("corrupt store: duplicate segment id".to_owned());
        }
        if !embeddings_ids_distinct(&embeddings) {
            return Err("corrupt store: duplicate embedding id".to_owned());
        }
        if !embeddings_reference_speakers(&embeddings, &speakers) {
            return Err("corrupt store: embedding without owner".to_owned());
        }
        if !segments_reference_speakers(&segments, &speakers) {
            return Err("corrupt store: segment with dangling speaker".to_owned());
        }
        let encrypted = crypto.is_keyed();
        let salt_row: Option<String> = match salt_meta {
            Some(s) => Some(s),
            None => crypto.salt(),
        };
        Ok(
            Db {
                crypto,
                encrypted,
                salt_meta: salt_row,
                sessions,
                speakers,
                segments,
                embeddings,
            },
        )
    }

    /// The persisted salt, the read-only probe for re-deriving the key on a
    /// later unlock. Never fails here; absence of the row is not an error.
    pub fn load_salt(&self) -> (r: Result<Option<String>, String>)
        ensures
            match r {
                Ok(s) => opt_view(s) == self.spec_salt_meta(),
                Err(_) => false,
            },
    {
        match &self.salt_meta {
            Some(s) => Ok(Some(s.clone())),
            None => Ok(None),
        }
    }

    /// Whether a speaker with this identifier exists.
    pub fn has_speaker(&self, id: &str) -> (r: bool)
        ensures
            r == self.spec_has_speaker(id@),
    {
        speaker_with_id(&self.speakers, id).is_some()
    }

    /// Inserts a session under the given identifier: the transcript is
    /// encrypted and the row appended, stamped with the creation time.
    /// Succeeds exactly when the identifier is not yet taken, and leaves the
    /// store untouched otherwise.
    pub fn insert_session_with_id(&mut self, id: String, transcript: &str) -> (r: Result<
        String,
        String,
    >)
        requires
            old(self).wf(),
            fits_payload(transcript@),
        ensures
            final(self).wf(),
            r is Ok <==> !has_session_id(old(self).spec_sessions(), id@),
            match r {
                Ok(out) => {
                    &&& out == id
                    &&& Db::same_engine(*old(self), *final(self))
                    &&& final(self).spec_speakers() == old(self).spec_speakers()
                    &&& final(self).spec_segments() == old(self).spec_segments()
                    &&& final(self).spec_embeddings() == old(self).spec_embeddings()
                    &&& final(self).spec_sessions().len() == old(self).spec_sessions().len() + 1
                    &&& final(self).spec_sessions().drop_last() =~= old(self).spec_sessions()
                    &&& final(self).spec_sessions().last().id@ == id@
                    &&& old(self).payload_of(
                        final(self).spec_sessions().last().transcript_nonce@,
                        final(self).spec_sessions().last().transcript_ct@,
                    ) == Some(encode_utf8(transcript@))
                },
                Err(_) => *final(self) == *old(self),
            },
    {
        if session_id_taken(&self.sessions, id.as_str()) {
            return Err("session id collision".to_owned());
        }
        let created_at = now_rfc3339();
        let pair = self.crypto.encrypt(transcript.as_bytes());
        let row = SessionRow {
            id: id.clone(),
            created_at,
            transcript_nonce: pair.0,
            transcript_ct: pair.1,
        };
        self.sessions.push(row);
        proof {
            assert(self.spec_sessions().drop_last() =~= old(self).spec_sessions());
            assert forall|i: int, j: int|
                0 <= i < j < self.spec_sessions().len() implies self.spec_sessions()[i].id@
                != self.spec_sessions()[j].id@ by {
                if j < self.spec_sessions().len() - 1 {
                    assert(old(self).spec_sessions()[i].id@ != old(self).spec_sessions()[j].id@);
                } else {
                    assert(self.spec_sessions()[i] == old(self).spec_sessions()[i]);
                }
            }
        }
        Ok(id)
    }

    /// Inserts a session under a fresh random identifier. Fails only when
    /// the fresh identifier collides with an existing row, and leaves the
    /// store untouched then.
    pub fn insert_session(&mut self, transcript: &str) -> (r: Result<String, String>)
        requires
            old(self).wf(),
            fits_payload(transcript@),
        ensures
            final(self).wf(),
            match r {
                Ok(id) => {
                    &&& Db::same_engine(*old(self), *final(self))
                    &&& final(self).spec_speakers() == old(self).spec_speakers()
                    &&& final(self).spec_segments() == old(self).spec_segments()
                    &&& final(self).spec_embeddings() == old(self).spec_embeddings()
                    &&& final(self).spec_sessions().len() == old(self).spec_sessions().len() + 1
                    &&& final(self).spec_sessions().drop_last() =~= old(self).spec_sessions()
                    &&& final(self).spec_sessions().last().id@ == id@
                    &&& !has_session_id(old(self).spec_sessions(), id@)
                    &&& old(self).payload_of(
                        final(self).spec_sessions().last().transcript_nonce@,
                        final(self).spec_sessions().last().transcript_ct@,
                    ) == Some(encode_utf8(transcript@))
                },
                Err(_) => *final(self) == *old(self),
            },
    {
        let id = new_uuid();
        self.insert_session_with_id(id, transcript)
    }

    /// Replaces a session's transcript: the new text is encrypted and set on
    /// the row with this identifier; a missing identifier updates no row and
    /// still succeeds, as an update of nothing.
    pub fn update_session_transcript(&mut self, session_id: &str, transcript: &str) -> (r: Result<
        (),
        String,
    >)
        requires
            old(self).wf(),
            fits_payload(transcript@),
        ensures
            final(self).wf(),
            r is Ok,
            Db::same_engine(*old(self), *final(self)),
            final(self).spec_speakers() == old(self).spec_speakers(),
            final(self).spec_segments() == old(self).spec_segments(),
            final(self).spec_embeddings() == old(self).spec_embeddings(),
            final(self).spec_sessions().len() == old(self).spec_sessions().len(),
            forall|i: int|
                0 <= i < old(self).spec_sessions().len() ==> {
                    let pre = old(self).spec_sessions()[i];
                    let post = #[trigger] final(self).spec_sessions()[i];
                    if pre.id@ == session_id@ {
                        &&& post.id == pre.id
                        &&& post.created_at == pre.created_at
                        &&& old(self).payload_of(post.transcript_nonce@, post.transcript_ct@)
                            == Some(encode_utf8(transcript@))
                    } else {
                        post == pre
                    }
                },
    {
        let ghost snap = *self;
        let pair = self.crypto.encrypt(transcript.as_bytes());
        let id_owned = session_id.to_owned();
        let n = self.sessions.len();
        let mut updated_rows: Vec<SessionRow> = Vec::new();
        let mut i: usize = 0;
        while i < n
            invariant
                *self == snap,
                n == snap.spec_sessions().len(),
                i <= n,
                updated_rows@.len() == i,
                id_owned@ == session_id@,
                snap.payload_of(pair.0@, pair.1@) == Some(encode_utf8(transcript@)),
                forall|k: int|
                    0 <= k < i ==> {
                        let pre = snap.spec_sessions()[k];
                        let post = #[trigger] updated_rows@[k];
                        if pre.id@ == session_id@ {
                            &&& post.id == pre.id
                            &&& post.created_at == pre.created_at
                            &&& snap.payload_of(post.transcript_nonce@, post.transcript_ct@)
                                == Some(encode_utf8(transcript@))
                        } else {
                            post == pre
                        }
                    },
            decreases n - i,
        {
            let row = &self.sessions[i];
            if row.id == id_owned {
                updated_rows.push(
                    SessionRow {
                        id: row.id.clone(),
                        created_at: row.created_at.clone(),
                        transcript_nonce: pair.0.clone(),
                        transcript_ct: pair.1.clone(),
                    },
                );
            } else {
                let copy = clone_session_row(row);
                updated_rows.push(copy);
            }
            i += 1;
        }
        self.sessions = updated_rows;
        proof {
            assert forall|a: int, b: int|
                0 <= a < b < self.spec_sessions().len() implies self.spec_sessions()[a].id@
                != self.spec_sessions()[b].id@ by {
                assert(self.spec_sessions()[a].id@ == snap.spec_sessions()[a].id@);
                assert(self.spec_sessions()[b].id@ == snap.spec_sessions()[b].id@);
            }
        }
        Ok(())
    }

    /// Deletes a session and cascades: its segments go, and so does every
    /// embedding whose source is this session; speakers and other sessions'
    /// rows stay untouched. The cascade is atomic. A missing identifier
    /// deletes nothing and still succeeds.
    pub fn delete_session(&mut self, session_id: &str) -> (r: Result<(), String>)
        requires
            old(self).wf(),
        ensures
            final(self).wf(),
            r is Ok,
            Db::same_engine(*old(self), *final(self)),
            final(self).spec_speakers() == old(self).spec_speakers(),
            final(self).spec_sessions() == old(self).spec_sessions().filter(
                |x: SessionRow| x.id@ != session_id@,
            ),
            final(self).spec_segments() == old(self).spec_segments().filter(
                |x: SegmentRow| x.session_id@ != session_id@,
            ),
            final(self).spec_embeddings() == old(self).spec_embeddings().filter(
                |x: EmbeddingRow| x.source_session_id@ != session_id@,
            ),
    {
        let ghost snap = *self;
        let id_owned = session_id.to_owned();
        let mut kept_sessions: Vec<SessionRow> = Vec::new();
        let mut i: usize = 0;
        while i < self.sessions.len()
            invariant
                *self == snap,
                i <= self.sessions@.len(),
                id_owned@ == session_id@,
                kept_sessions@ =~= self.sessions@.take(i as int).filter(
                    |x: SessionRow| x.id@ != session_id@,
                ),
            decreases self.sessions@.len() - i,
        {
            proof {
                lemma_filter_take_step(
                    self.sessions@,
                    i as int,
                    |x: SessionRow| x.id@ != session_id@,
                );
            }
            if !(self.sessions[i].id == id_owned) {
                let row = clone_session_row(&self.sessions[i]);
                kept_sessions.push(row);
            }
            i += 1;
        }
        let mut kept_segments: Vec<SegmentRow> = Vec::new();
        let mut j: usize = 0;
        while j < self.segments.len()
            invariant
                *self == snap,
                j <= self.segments@.len(),
                id_owned@ == session_id@,
                kept_segments@ =~= self.segments@.take(j as int).filter(
                    |x: SegmentRow| x.session_id@ != session_id@,
                ),
            decreases self.segments@.len() - j,
        {
            proof {
                lemma_filter_take_step(
                    self.segments@,
                    j as int,
                    |x: SegmentRow| x.session_id@ != session_id@,
                );
            }
            if !(self.segments[j].session_id == id_owned) {
                let row = clone_segment_row(&self.segments[j]);
                kept_segments.push(row);
            }
            j += 1;
        }
        let mut kept_embeddings: Vec<EmbeddingRow> = Vec::new();
        let mut k: usize = 0;
        while k < self.embeddings.len()
            invariant
                *self == snap,
                k <= self.embeddings@.len(),
                id_owned@ == session_id@,
                kept_embeddings@ =~= self.embeddings@.take(k as int).filter(
                    |x: EmbeddingRow| x.source_session_id@ != session_id@,
                ),
            decreases self.embeddings@.len() - k,
        {
            proof {
                lemma_filter_take_step(
                    self.embeddings@,
                    k as int,
                    |x: EmbeddingRow| x.source_session_id@ != session_id@,
                );
            }
            if !(self.embeddings[k].source_session_id == id_owned) {
                let row = clone_embedding_row(&self.embeddings[k]);
                kept_embeddings.push(row);
            }
            k += 1;
        }
        self.sessions = kept_sessions;
        self.segments = kept_segments;
        self.embeddings = kept_embeddings;
        proof {
            assert(snap.spec_sessions().take(snap.spec_sessions().len() as int)
                =~= snap.spec_sessions());
            assert(snap.spec_segments().take(snap.spec_segments().len() as int)
                =~= snap.spec_segments());
            assert(snap.spec_embeddings().take(snap.spec_embeddings().len() as int)
                =~= snap.spec_embeddings());
            lemma_filter_distinct_by(
                snap.spec_sessions(),
                |x: SessionRow| x.id@ != session_id@,
                |x: SessionRow| x.id@,
            );
            lemma_filter_distinct_by(
                snap.spec_segments(),
                |x: SegmentRow| x.session_id@ != session_id@,
                |x: SegmentRow| x.id@,
            );
            lemma_filter_distinct_by(
                snap.spec_embeddings(),
                |x: EmbeddingRow| x.source_session_id@ != session_id@,
                |x: EmbeddingRow| x.id@,
            );
            lemma_filter_elements(snap.spec_embeddings(), |x: EmbeddingRow| x.source_session_id@ != session_id@);
            lemma_filter_elements(snap.spec_segments(), |x: SegmentRow| x.session_id@ != session_id@);
            assert forall|w: int|
                0 <= w < self.spec_embeddings().len() implies self.spec_has_speaker(
                #[trigger] self.spec_embeddings()[w].speaker_id@,
            ) by {
                assert(snap.spec_embeddings().contains(self.spec_embeddings()[w]));
                let v = choose|v: int|
                    0 <= v < snap.spec_embeddings().len() && snap.spec_embeddings()[v]
                        == self.spec_embeddings()[w];
                assert(snap.spec_has_speaker(snap.spec_embeddings()[v].speaker_id@));
            }
            assert forall|w: int|
                0 <= w < self.spec_segments().len() implies match #[trigger] self.spec_segments()[w].speaker_id {
                Some(s) => self.spec_has_speaker(s@),
                None => true,
            } by {
                assert(snap.spec_segments().contains(self.spec_segments()[w]));
                let v = choose|v: int|
                    0 <= v < snap.spec_segments().len() && snap.spec_segments()[v]
                        == self.spec_segments()[w];
                assert(match snap.spec_segments()[v].speaker_id {
                    Some(s) => snap.spec_has_speaker(s@),
                    None => true,
                });
            }
        }
        Ok(())
    }

    /// Lists sessions newest-created-first — the reverse of insertion order,
    /// which follows creation stamps — with each transcript decrypted. Fails
    /// closed: one row that refuses to decrypt aborts the whole listing.
    pub fn list_sessions(&self) -> (r: Result<Vec<Session>, String>)
        requires
            self.wf(),
        ensures
            match r {
                Ok(v) => {
                    &&& v@.len() == self.spec_sessions().len()
                    &&& forall|i: int|
                        0 <= i < v@.len() ==> {
                            let row = self.spec_sessions()[self.spec_sessions().len() - 1 - i];
                            let rec = #[trigger] v@[i];
                            &&& rec.id == row.id
                            &&& rec.created_at == row.created_at
                            &&& self.payload_of(row.transcript_nonce@, row.transcript_ct@)
                                is Some
                            &&& rec.transcript@ == text_of_bytes(
                                self.payload_of(
                                    row.transcript_nonce@,
                                    row.transcript_ct@,
                                ).unwrap(),
                            )
                        }
                },
                Err(_) => exists|i: int|
                    0 <= i < self.spec_sessions().len() && self.payload_of(
                        #[trigger] self.spec_sessions()[i].transcript_nonce@,
                        self.spec_sessions()[i].transcript_ct@,
                    ) is None,
            },
    {
        let mut out: Vec<Session> = Vec::new();
        let n = self.sessions.len();
        let mut i: usize = n;
        while i > 0
            invariant
                self.wf(),
                n == self.sessions@.len(),
                i <= n,
                out@.len() == n - i,
                forall|k: int|
                    0 <= k < out@.len() ==> {
                        let row = self.spec_sessions()[n - 1 - k];
                        let rec = #[trigger] out@[k];
                        &&& rec.id == row.id
                        &&& rec.created_at == row.created_at
                        &&& self.payload_of(row.transcript_nonce@, row.transcript_ct@) is Some
                        &&& rec.transcript@ == text_of_bytes(
                            self.payload_of(row.transcript_nonce@, row.transcript_ct@).unwrap(),
                        )
                    },
            decreases i,
        {
            i -= 1;
            let row = &self.sessions[i];
            let bytes = match self.crypto.decrypt(row.transcript_nonce.as_str(), row.transcript_ct.as_str()) {
                Ok(b) => b,
                Err(e) => {
                    return Err(e);
                },
            };
            let transcript = string_from_utf8_or_default(bytes);
            out.push(Session { id: row.id.clone(), created_at: row.created_at.clone(), transcript });
        }
        Ok(out)
    }

    /// Inserts a speaker under the given identifier, with or without a
    /// label, stamped with the creation time. Succeeds exactly when the
    /// identifier is not yet taken, and leaves the store untouched
    /// otherwise.
    pub fn insert_speaker_with_id(&mut self, id: String, label: Option<&str>) -> (r: Result<
        String,
        String,
    >)
        requires
            old(self).wf(),
        ensures
            final(self).wf(),
            r is Ok <==> !has_speaker_id(old(self).spec_speakers(), id@),
            match r {
                Ok(out) => {
                    &&& out == id
                    &&& Db::same_engine(*old(self), *final(self))
                    &&& final(self).spec_sessions() == old(self).spec_sessions()
                    &&& final(self).spec_segments() == old(self).spec_segments()
                    &&& final(self).spec_embeddings() == old(self).spec_embeddings()
                    &&& final(self).spec_speakers().len() == old(self).spec_speakers().len() + 1
                    &&& final(self).spec_speakers().drop_last() =~= old(self).spec_speakers()
                    &&& final(self).spec_speakers().last().id@ == id@
                    &&& opt_view(final(self).spec_speakers().last().label) == opt_str_view(label)
                },
                Err(_) => *final(self) == *old(self),
            },
    {
        if speaker_id_taken(&self.speakers, id.as_str()) {
            return Err("speaker id collision".to_owned());
        }
        let created_at = now_rfc3339();
        let label_owned: Option<String> = match label {
            Some(s) => Some(s.to_owned()),
            None => None,
        };
        self.speakers.push(SpeakerRow { id: id.clone(), label: label_owned, created_at });
        proof {
            assert(self.spec_speakers().drop_last() =~= old(self).spec_speakers());
            assert forall|a: int, b: int|
                0 <= a < b < self.spec_speakers().len() implies self.spec_speakers()[a].id@
                != self.spec_speakers()[b].id@ by {
                if b < self.spec_speakers().len() - 1 {
                    assert(old(self).spec_speakers()[a].id@ != old(self).spec_speakers()[b].id@);
                } else {
                    assert(self.spec_speakers()[a] == old(self).spec_speakers()[a]);
                }
            }
            lemma_more_speakers_keep_references(*old(self), *self);
        }
        Ok(id)
    }

    /// Inserts a speaker under a fresh random identifier. Fails only when
    /// the fresh identifier collides with an existing row, and leaves the
    /// store untouched then.
    pub fn insert_speaker(&mut self, label: Option<&str>) -> (r: Result<String, String>)
        requires
            old(self).wf(),
        ensures
            final(self).wf(),
            match r {
                Ok(id) => {
                    &&& Db::same_engine(*old(self), *final(self))
                    &&& final(self).spec_sessions() == old(self).spec_sessions()
                    &&& final(self).spec_segments() == old(self).spec_segments()
                    &&& final(self).spec_embeddings() == old(self).spec_embeddings()
                    &&& final(self).spec_speakers().len() == old(self).spec_speakers().len() + 1
                    &&& final(self).spec_speakers().drop_last() =~= old(self).spec_speakers()
                    &&& final(self).spec_speakers().last().id@ == id@
                    &&& opt_view(final(self).spec_speakers().last().label) == opt_str_view(label)
                    &&& !has_speaker_id(old(self).spec_speakers(), id@)
                },
                Err(_) => *final(self) == *old(self),
            },
    {
        let id = new_uuid();
        self.insert_speaker_with_id(id, label)
    }

    /// Lists speakers oldest-created-first — insertion order, which follows
    /// creation stamps. Never fails in this store.
    pub fn list_speakers(&self) -> (r: Result<Vec<Speaker>, String>)
        ensures
            match r {
                Ok(v) => {
                    &&& v@.len() == self.spec_speakers().len()
                    &&& forall|i: int|
                        0 <= i < v@.len() ==> {
                            let row = self.spec_speakers()[i];
                            let rec = #[trigger] v@[i];
                            &&& rec.id == row.id
                            &&& rec.label == row.label
                            &&& rec.created_at == row.created_at
                        }
                },
                Err(_) => false,
            },
    {
        let mut out: Vec<Speaker> = Vec::new();
        let mut i: usize = 0;
        while i < self.speakers.len()
            invariant
                i <= self.speakers@.len(),
                out@.len() == i,
                forall|k: int|
                    0 <= k < i ==> {
                        let row = self.spec_speakers()[k];
                        let rec = #[trigger] out@[k];
                        &&& rec.id == row.id
                        &&& rec.label == row.label
                        &&& rec.created_at == row.created_at
                    },
            decreases self.speakers@.len() - i,
        {
            let row = &self.speakers[i];
            out.push(
                Speaker {
                    id: row.id.clone(),
                    label: clone_opt_string(&row.label),
                    created_at: row.created_at.clone(),
                },
            );
            i += 1;
        }
        Ok(out)
    }

    /// Renames a speaker: sets the label on the speaker row with this
    /// identifier and denormalizes the new label onto every segment that
    /// references the speaker; nothing else moves. A missing identifier
    /// updates nothing and still succeeds.
    pub fn rename_speaker(&mut self, speaker_id: &str, new_label: &str) -> (r: Result<(), String>)
        requires
            old(self).wf(),
        ensures
            final(self).wf(),
            r is Ok,
            Db::same_engine(*old(self), *final(self)),
            final(self).spec_sessions() == old(self).spec_sessions(),
            final(self).spec_embeddings() == old(self).spec_embeddings(),
            final(self).spec_speakers().len() == old(self).spec_speakers().len(),
            forall|i: int|
                0 <= i < old(self).spec_speakers().len() ==> {
                    let pre = old(self).spec_speakers()[i];
                    let post = #[trigger] final(self).spec_speakers()[i];
                    if pre.id@ == speaker_id@ {
                        &&& post.id == pre.id
                        &&& post.created_at == pre.created_at
                        &&& opt_view(post.label) == Some(new_label@)
                    } else {
                        post == pre
                    }
                },
            final(self).spec_segments().len() == old(self).spec_segments().len(),
            forall|i: int|
                0 <= i < old(self).spec_segments().len() ==> {
                    let pre = old(self).spec_segments()[i];
                    let post = #[trigger] final(self).spec_segments()[i];
                    if opt_view(pre.speaker_id) == Some(speaker_id@) {
                        &&& post.id == pre.id
                        &&& post.session_id == pre.session_id
                        &&& post.start_ms == pre.start_ms
                        &&& post.end_ms == pre.end_ms
                        &&& post.speaker_id == pre.speaker_id
                        &&& opt_view(post.speaker_label) == Some(new_label@)
                        &&& post.text_nonce == pre.text_nonce
                        &&& post.text_ct == pre.text_ct
                    } else {
                        post == pre
                    }
                },
    {
        let ghost snap = *self;
        let id_owned = speaker_id.to_owned();
        let mut new_speakers: Vec<SpeakerRow> = Vec::new();
        let mut i: usize = 0;
        while i < self.speakers.len()
            invariant
                *self == snap,
                i <= self.speakers@.len(),
                new_speakers@.len() == i,
                id_owned@ == speaker_id@,
                forall|k: int|
                    0 <= k < i ==> {
                        let pre = snap.spec_speakers()[k];
                        let post = #[trigger] new_speakers@[k];
                        if pre.id@ == speaker_id@ {
                            &&& post.id == pre.id
                            &&& post.created_at == pre.created_at
                            &&& opt_view(post.label) == Some(new_label@)
                        } else {
                            post == pre
                        }
                    },
            decreases self.speakers@.len() - i,
        {
            let row = &self.speakers[i];
            if row.id == id_owned {
                new_speakers.push(
                    SpeakerRow {
                        id: row.id.clone(),
                        label: Some(new_label.to_owned()),
                        created_at: row.created_at.clone(),
                    },
                );
            } else {
                let copy = clone_speaker_row(row);
                new_speakers.push(copy);
            }
            i += 1;
        }
        self.speakers = new_speakers;
        let mut new_segments: Vec<SegmentRow> = Vec::new();
        let mut j: usize = 0;
        while j < self.segments.len()
            invariant
                self.segments == snap.segments,
                j <= self.segments@.len(),
                new_segments@.len() == j,
                id_owned@ == speaker_id@,
                forall|k: int|
                    0 <= k < j ==> {
                        let pre = snap.spec_segments()[k];
                        let post = #[trigger] new_segments@[k];
                        if opt_view(pre.speaker_id) == Some(speaker_id@) {
                            &&& post.id == pre.id
                            &&& post.session_id == pre.session_id
                            &&& post.start_ms == pre.start_ms
                            &&& post.end_ms == pre.end_ms
                            &&& post.speaker_id == pre.speaker_id
                            &&& opt_view(post.speaker_label) == Some(new_label@)
                            &&& post.text_nonce == pre.text_nonce
                            &&& post.text_ct == pre.text_ct
                        } else {
                            post == pre
                        }
                    },
            decreases self.segments@.len() - j,
        {
            let row = &self.segments[j];
            let is_target = match &row.speaker_id {
                Some(s) => *s == id_owned,
                None => false,
            };
            if is_target {
                new_segments.push(
                    SegmentRow {
                        id: row.id.clone(),
                        session_id: row.session_id.clone(),
                        start_ms: row.start_ms,
                        end_ms: row.end_ms,
                        speaker_label: Some(new_label.to_owned()),
                        speaker_id: clone_opt_string(&row.speaker_id),
                        text_nonce: row.text_nonce.clone(),
                        text_ct: row.text_ct.clone(),
                    },
                );
            } else {
                let copy = clone_segment_row(row);
                new_segments.push(copy);
            }
            j += 1;
        }
        self.segments = new_segments;
        proof {
            lemma_same_speaker_ids_keep_references(snap, *self);
        }
        Ok(())
    }

    /// Deletes a speaker: its embeddings go, the speaker row goes, and every
    /// segment that referenced it keeps its row but loses the identity — the
    /// reference and the denormalized label are both cleared. Sessions stay
    /// untouched. A missing identifier deletes nothing and still succeeds.
    pub fn delete_speaker(&mut self, speaker_id: &str) -> (r: Result<(), String>)
        requires
            old(self).wf(),
        ensures
            final(self).wf(),
            r is Ok,
            Db::same_engine(*old(self), *final(self)),
            final(self).spec_sessions() == old(self).spec_sessions(),
            final(self).spec_embeddings() == old(self).spec_embeddings().filter(
                |x: EmbeddingRow| x.speaker_id@ != speaker_id@,
            ),
            final(self).spec_speakers() == old(self).spec_speakers().filter(
                |x: SpeakerRow| x.id@ != speaker_id@,
            ),
            final(self).spec_segments().len() == old(self).spec_segments().len(),
            forall|i: int|
                0 <= i < old(self).spec_segments().len() ==> {
                    let pre = old(self).spec_segments()[i];
                    let post = #[trigger] final(self).spec_segments()[i];
                    if opt_view(pre.speaker_id) == Some(speaker_id@) {
                        &&& post.id == pre.id
                        &&& post.session_id == pre.session_id
                        &&& post.start_ms == pre.start_ms
                        &&& post.end_ms == pre.end_ms
                        &&& post.speaker_id is None
                        &&& post.speaker_label is None
                        &&& post.text_nonce == pre.text_nonce
                        &&& post.text_ct == pre.text_ct
                    } else {
                        post == pre
                    }
                },
    {
        let ghost snap = *self;
        let id_owned = speaker_id.to_owned();
        let mut kept_embeddings: Vec<EmbeddingRow> = Vec::new();
        let mut i: usize = 0;
        while i < self.embeddings.len()
            invariant
                *self == snap,
                i <= self.embeddings@.len(),
                id_owned@ == speaker_id@,
                kept_embeddings@ =~= self.embeddings@.take(i as int).filter(
                    |x: EmbeddingRow| x.speaker_id@ != speaker_id@,
                ),
            decreases self.embeddings@.len() - i,
        {
            proof {
                lemma_filter_take_step(
                    self.embeddings@,
                    i as int,
                    |x: EmbeddingRow| x.speaker_id@ != speaker_id@,
                );
            }
            if !(self.embeddings[i].speaker_id == id_owned) {
                let row = clone_embedding_row(&self.embeddings[i]);
                kept_embeddings.push(row);
            }
            i += 1;
        }
        let mut kept_speakers: Vec<SpeakerRow> = Vec::new();
        let mut j: usize = 0;
        while j < self.speakers.len()
            invariant
                *self == snap,
                j <= self.speakers@.len(),
                id_owned@ == speaker_id@,
                kept_speakers@ =~= self.speakers@.take(j as int).filter(
                    |x: SpeakerRow| x.id@ != speaker_id@,
                ),
            decreases self.speakers@.len() - j,
        {
            proof {
                lemma_filter_take_step(
                    self.speakers@,
                    j as int,
                    |x: SpeakerRow| x.id@ != speaker_id@,
                );
            }
            if !(self.speakers[j].id == id_owned) {
                let row = clone_speaker_row(&self.speakers[j]);
                kept_speakers.push(row);
            }
            j += 1;
        }
        let mut new_segments: Vec<SegmentRow> = Vec::new();
        let mut k: usize = 0;
        while k < self.segments.len()
            invariant
                *self == snap,
                k <= self.segments@.len(),
                new_segments@.len() == k,
                id_owned@ == speaker_id@,
                forall|w: int|
                    0 <= w < k ==> {
                        let pre = snap.spec_segments()[w];
                        let post = #[trigger] new_segments@[w];
                        if opt_view(pre.speaker_id) == Some(speaker_id@) {
                            &&& post.id == pre.id
                            &&& post.session_id == pre.session_id
                            &&& post.start_ms == pre.start_ms
                            &&& post.end_ms == pre.end_ms
                            &&& post.speaker_id is None
                            &&& post.speaker_label is None
                            &&& post.text_nonce == pre.text_nonce
                            &&& post.text_ct == pre.text_ct
                        } else {
                            post == pre
                        }
                    },
            decreases self.segments@.len() - k,
        {
            let row = &self.segments[k];
            let is_target = match &row.speaker_id {
                Some(s) => *s == id_owned,
                None => false,
            };
            if is_target {
                new_segments.push(
                    SegmentRow {
                        id: row.id.clone(),
                        session_id: row.session_id.clone(),
                        start_ms: row.start_ms,
                        end_ms: row.end_ms,
                        speaker_label: None,
                        speaker_id: None,
                        text_nonce: row.text_nonce.clone(),
                        text_ct: row.text_ct.clone(),
                    },
                );
            } else {
                let copy = clone_segment_row(row);
                new_segments.push(copy);
            }
            k += 1;
        }
        let ghost segs_final = new_segments@;
        self.embeddings = kept_embeddings;
        self.speakers = kept_speakers;
        self.segments = new_segments;
        proof {
            assert(snap.spec_embeddings().take(snap.spec_embeddings().len() as int)
                =~= snap.spec_embeddings());
            assert(snap.spec_speakers().take(snap.spec_speakers().len() as int)
                =~= snap.spec_speakers());
            lemma_filter_distinct_by(
                snap.spec_embeddings(),
                |x: EmbeddingRow| x.speaker_id@ != speaker_id@,
                |x: EmbeddingRow| x.id@,
            );
            lemma_filter_distinct_by(
                snap.spec_speakers(),
                |x: SpeakerRow| x.id@ != speaker_id@,
                |x: SpeakerRow| x.id@,
            );
            assert(self.spec_segments() == segs_final);
            assert forall|a: int, b: int|
                0 <= a < b < self.spec_segments().len() implies self.spec_segments()[a].id@
                != self.spec_segments()[b].id@ by {
                let post_a = segs_final[a];
                let post_b = segs_final[b];
                assert(post_a.id == snap.spec_segments()[a].id);
                assert(post_b.id == snap.spec_segments()[b].id);
                assert(snap.spec_segments()[a].id@ != snap.spec_segments()[b].id@);
            }
            lemma_filter_elements(
                snap.spec_embeddings(),
                |x: EmbeddingRow| x.speaker_id@ != speaker_id@,
            );
            assert(self.spec_speakers() =~= snap.spec_speakers().filter(
                |x: SpeakerRow| x.id@ != speaker_id@,
            ));
            assert(self.spec_embeddings() =~= snap.spec_embeddings().filter(
                |x: EmbeddingRow| x.speaker_id@ != speaker_id@,
            ));
            assert forall|w: int|
                0 <= w < self.spec_embeddings().len() implies self.spec_has_speaker(
                #[trigger] self.spec_embeddings()[w].speaker_id@,
            ) by {
                let e = self.spec_embeddings()[w];
                assert(snap.spec_embeddings().contains(e));
                let v = choose|v: int|
                    0 <= v < snap.spec_embeddings().len() && snap.spec_embeddings()[v] == e;
                assert(snap.spec_has_speaker(e.speaker_id@));
                snap.spec_embeddings().lemma_filter_pred(
                    |x: EmbeddingRow| x.speaker_id@ != speaker_id@,
                    w,
                );
                assert(e.speaker_id@ != speaker_id@);
                let idx = choose|idx: int|
                    0 <= idx < snap.spec_speakers().len() && #[trigger] snap.spec_speakers()[idx].id@
                        == e.speaker_id@;
                snap.spec_speakers().lemma_filter_contains(
                    |x: SpeakerRow| x.id@ != speaker_id@,
                    idx,
                );
                let kept_sp = snap.spec_speakers().filter(|x: SpeakerRow| x.id@ != speaker_id@);
                assert(kept_sp.contains(snap.spec_speakers()[idx]));
                let t = choose|t: int|
                    0 <= t < kept_sp.len() && kept_sp[t] == snap.spec_speakers()[idx];
                assert(self.spec_speakers()[t].id@ == e.speaker_id@);
            }
            assert forall|w: int|
                0 <= w < self.spec_segments().len() implies match #[trigger] self.spec_segments()[w].speaker_id {
                Some(s) => self.spec_has_speaker(s@),
                None => true,
            } by {
                let pre = snap.spec_segments()[w];
                let post = segs_final[w];
                assert(self.spec_segments()[w] == post);
                match post.speaker_id {
                    Some(s) => {
                        assert(opt_view(pre.speaker_id) != Some(speaker_id@));
                        assert(post == pre);
                        assert(match pre.speaker_id {
                            Some(p) => snap.spec_has_speaker(p@),
                            None => true,
                        });
                        assert(s@ != speaker_id@);
                        let idx = choose|idx: int|
                            0 <= idx < snap.spec_speakers().len()
                                && #[trigger] snap.spec_speakers()[idx].id@ == s@;
                        snap.spec_speakers().lemma_filter_contains(
                            |x: SpeakerRow| x.id@ != speaker_id@,
                            idx,
                        );
                        let kept_sp = snap.spec_speakers().filter(
                            |x: SpeakerRow| x.id@ != speaker_id@,
                        );
                        assert(kept_sp.contains(snap.spec_speakers()[idx]));
                        let t = choose|t: int|
                            0 <= t < kept_sp.len() && kept_sp[t] == snap.spec_speakers()[idx];
                        assert(self.spec_speakers()[t].id@ == s@);
                    },
                    None => {},
                }
            }
        }
        Ok(())
    }

    /// Inserts a segment row for a session under the given identifier: the
    /// text is encrypted, the optional speaker reference must point at an
    /// existing speaker, and the denormalized label is stored as given.
    /// Succeeds exactly when the identifier is not yet taken, and leaves the
    /// store untouched otherwise.
    pub fn insert_segment_with_id(
        &mut self,
        id: String,
        session_id: &str,
        start_ms: i64,
        end_ms: i64,
        speaker_id: Option<&str>,
        speaker_label: Option<&str>,
        text: &str,
    ) -> (r: Result<String, String>)
        requires
            old(self).wf(),
            fits_payload(text@),
            match speaker_id {
                Some(s) => old(self).spec_has_speaker(s@),
                None => true,
            },
        ensures
            final(self).wf(),
            r is Ok <==> !has_segment_id(old(self).spec_segments(), id@),
            match r {
                Ok(out) => {
                    &&& out == id
                    &&& Db::same_engine(*old(self), *final(self))
                    &&& final(self).spec_sessions() == old(self).spec_sessions()
                    &&& final(self).spec_speakers() == old(self).spec_speakers()
                    &&& final(self).spec_embeddings() == old(self).spec_embeddings()
                    &&& final(self).spec_segments().len() == old(self).spec_segments().len() + 1
                    &&& final(self).spec_segments().drop_last() =~= old(self).spec_segments()
                    &&& final(self).spec_segments().last().id@ == id@
                    &&& final(self).spec_segments().last().session_id@ == session_id@
                    &&& final(self).spec_segments().last().start_ms == start_ms
                    &&& final(self).spec_segments().last().end_ms == end_ms
                    &&& opt_view(final(self).spec_segments().last().speaker_id) == opt_str_view(
                        speaker_id,
                    )
                    &&& opt_view(final(self).spec_segments().last().speaker_label) == opt_str_view(
                        speaker_label,
                    )
                    &&& old(self).payload_of(
                        final(self).spec_segments().last().text_nonce@,
                        final(self).spec_segments().last().text_ct@,
                    ) == Some(encode_utf8(text@))
                },
                Err(_) => *final(self) == *old(self),
            },
    {
        if segment_id_taken(&self.segments, id.as_str()) {
            return Err("segment id collision".to_owned());
        }
        let pair = self.crypto.encrypt(text.as_bytes());
        let speaker_id_owned: Option<String> = match speaker_id {
            Some(s) => Some(s.to_owned()),
            None => None,
        };
        let speaker_label_owned: Option<String> = match speaker_label {
            Some(s) => Some(s.to_owned()),
            None => None,
        };
        let row = SegmentRow {
            id: id.clone(),
            session_id: session_id.to_owned(),
            start_ms,
            end_ms,
            speaker_label: speaker_label_owned,
            speaker_id: speaker_id_owned,
            text_nonce: pair.0,
            text_ct: pair.1,
        };
        self.segments.push(row);
        proof {
            assert(self.spec_segments().drop_last() =~= old(self).spec_segments());
            assert forall|a: int, b: int|
                0 <= a < b < self.spec_segments().len() implies self.spec_segments()[a].id@
                != self.spec_segments()[b].id@ by {
                if b < self.spec_segments().len() - 1 {
                    assert(old(self).spec_segments()[a].id@ != old(self).spec_segments()[b].id@);
                } else {
                    assert(self.spec_segments()[a] == old(self).spec_segments()[a]);
                }
            }
            assert forall|w: int|
                0 <= w < self.spec_segments().len() implies match #[trigger] self.spec_segments()[w].speaker_id {
                Some(s) => self.spec_has_speaker(s@),
                None => true,
            } by {
                if w < self.spec_segments().len() - 1 {
                    assert(self.spec_segments()[w] == old(self).spec_segments()[w]);
                    assert(match old(self).spec_segments()[w].speaker_id {
                        Some(s) => old(self).spec_has_speaker(s@),
                        None => true,
                    });
                }
            }
        }
        Ok(id)
    }

    /// Inserts a segment row for a session under a fresh random identifier.
    /// Fails only when the fresh identifier collides with an existing row,
    /// and leaves the store untouched then.
    pub fn insert_segment(
        &mut self,
        session_id: &str,
        start_ms: i64,
        end_ms: i64,
        speaker_id: Option<&str>,
        speaker_label: Option<&str>,
        text: &str,
    ) -> (r: Result<String, String>)
        requires
            old(self).wf(),
            fits_payload(text@),
            match speaker_id {
                Some(s) => old(self).spec_has_speaker(s@),
                None => true,
            },
        ensures
            final(self).wf(),
            match r {
                Ok(id) => {
                    &&& Db::same_engine(*old(self), *final(self))
                    &&& final(self).spec_sessions() == old(self).spec_sessions()
                    &&& final(self).spec_speakers() == old(self).spec_speakers()
                    &&& final(self).spec_embeddings() == old(self).spec_embeddings()
                    &&& final(self).spec_segments().len() == old(self).spec_segments().len() + 1
                    &&& final(self).spec_segments().drop_last() =~= old(self).spec_segments()
                    &&& final(self).spec_segments().last().id@ == id@
                    &&& final(self).spec_segments().last().session_id@ == session_id@
                    &&& final(self).spec_segments().last().start_ms == start_ms
                    &&& final(self).spec_segments().last().end_ms == end_ms
                    &&& opt_view(final(self).spec_segments().last().speaker_id) == opt_str_view(
                        speaker_id,
                    )
                    &&& opt_view(final(self).spec_segments().last().speaker_label) == opt_str_view(
                        speaker_label,
                    )
                    &&& !has_segment_id(old(self).spec_segments(), id@)
                    &&& old(self).payload_of(
                        final(self).spec_segments().last().text_nonce@,
                        final(self).spec_segments().last().text_ct@,
                    ) == Some(encode_utf8(text@))
                },
                Err(_) => *final(self) == *old(self),
            },
    {
        let id = new_uuid();
        self.insert_segment_with_id(id, session_id, start_ms, end_ms, speaker_id, speaker_label, text)
    }

    /// Lists a session's segments ordered by start time ascending — a stable
    /// ordering, rows with equal starts staying in insertion order — with
    /// each text decrypted. Fails closed: one row that refuses to decrypt
    /// aborts the whole listing.
    pub fn list_segments(&self, session_id: &str) -> (r: Result<Vec<SegmentRecord>, String>)
        requires
            self.wf(),
        ensures
            ({
                let ordered = sort_by_start(
                    self.spec_segments().filter(|x: SegmentRow| x.session_id@ == session_id@),
                );
                match r {
                    Ok(v) => {
                        &&& v@.len() == ordered.len()
                        &&& forall|i: int|
                            0 <= i < v@.len() ==> {
                                let row = ordered[i];
                                let rec = #[trigger] v@[i];
                                &&& rec.id == row.id
                                &&& rec.session_id == row.session_id
                                &&& rec.start_ms == row.start_ms
                                &&& rec.end_ms == row.end_ms
                                &&& rec.speaker_id == row.speaker_id
                                &&& rec.speaker_label == row.speaker_label
                                &&& self.payload_of(row.text_nonce@, row.text_ct@) is Some
                                &&& rec.text@ == text_of_bytes(
                                    self.payload_of(row.text_nonce@, row.text_ct@).unwrap(),
                                )
                            }
                    },
                    Err(_) => exists|i: int|
                        0 <= i < ordered.len() && self.payload_of(
                            #[trigger] ordered[i].text_nonce@,
                            ordered[i].text_ct@,
                        ) is None,
                }
            }),
    {
        let id_owned = session_id.to_owned();
        let mut matching: Vec<SegmentRow> = Vec::new();
        let mut i: usize = 0;
        while i < self.segments.len()
            invariant
                i <= self.segments@.len(),
                id_owned@ == session_id@,
                matching@ =~= self.segments@.take(i as int).filter(
                    |x: SegmentRow| x.session_id@ == session_id@,
                ),
            decreases self.segments@.len() - i,
        {
            proof {
                lemma_filter_take_step(
                    self.segments@,
                    i as int,
                    |x: SegmentRow| x.session_id@ == session_id@,
                );
            }
            if self.segments[i].session_id == id_owned {
                let row = clone_segment_row(&self.segments[i]);
                matching.push(row);
            }
            i += 1;
        }
        proof {
            assert(self.spec_segments().take(self.spec_segments().len() as int)
                =~= self.spec_segments());
        }
        let ordered_rows = sort_segment_rows(matching);
        let mut out: Vec<SegmentRecord> = Vec::new();
        let mut k: usize = 0;
        while k < ordered_rows.len()
            invariant
                self.wf(),
                k <= ordered_rows@.len(),
                out@.len() == k,
                ordered_rows@ == sort_by_start(
                    self.spec_segments().filter(|x: SegmentRow| x.session_id@ == session_id@),
                ),
                forall|w: int|
                    0 <= w < k ==> {
                        let row = ordered_rows@[w];
                        let rec = #[trigger] out@[w];
                        &&& rec.id == row.id
                        &&& rec.session_id == row.session_id
                        &&& rec.start_ms == row.start_ms
                        &&& rec.end_ms == row.end_ms
                        &&& rec.speaker_id == row.speaker_id
                        &&& rec.speaker_label == row.speaker_label
                        &&& self.payload_of(row.text_nonce@, row.text_ct@) is Some
                        &&& rec.text@ == text_of_bytes(
                            self.payload_of(row.text_nonce@, row.text_ct@).unwrap(),
                        )
                    },
            decreases ordered_rows@.len() - k,
        {
            let row = &ordered_rows[k];
            let bytes = match self.crypto.decrypt(row.text_nonce.as_str(), row.text_ct.as_str()) {
                Ok(b) => b,
                Err(e) => {
                    return Err(e);
                },
            };
            let text = string_from_utf8_or_default(bytes);
            out.push(
                SegmentRecord {
                    id: row.id.clone(),
                    session_id: row.session_id.clone(),
                    start_ms: row.start_ms,
                    end_ms: row.end_ms,
                    speaker_id: clone_opt_string(&row.speaker_id),
                    speaker_label: clone_opt_string(&row.speaker_label),
                    text,
                },
            );
            k += 1;
        }
        Ok(out)
    }

    /// Inserts an embedding for a speaker under the given identifier: the
    /// vector is packed into its binary form and encrypted, with the source
    /// session recorded as provenance. The speaker must exist. Succeeds
    /// exactly when the identifier is not yet taken, and leaves the store
    /// untouched otherwise.
    pub fn insert_embedding_with_id(
        &mut self,
        id: String,
        speaker_id: &str,
        session_id: &str,
        vector: &Vec<u32>,
    ) -> (r: Result<String, String>)
        requires
            old(self).wf(),
            old(self).spec_has_speaker(speaker_id@),
            4 * vector@.len() <= AEAD_PT_LIMIT,
        ensures
            final(self).wf(),
            r is Ok <==> !has_embedding_id(old(self).spec_embeddings(), id@),
            match r {
                Ok(out) => {
                    &&& out == id
                    &&& Db::same_engine(*old(self), *final(self))
                    &&& final(self).spec_sessions() == old(self).spec_sessions()
                    &&& final(self).spec_speakers() == old(self).spec_speakers()
                    &&& final(self).spec_segments() == old(self).spec_segments()
                    &&& final(self).spec_embeddings().len() == old(self).spec_embeddings().len()
                        + 1
                    &&& final(self).spec_embeddings().drop_last() =~= old(self).spec_embeddings()
                    &&& final(self).spec_embeddings().last().id@ == id@
                    &&& final(self).spec_embeddings().last().speaker_id@ == speaker_id@
                    &&& final(self).spec_embeddings().last().source_session_id@ == session_id@
                    &&& old(self).payload_of(
                        final(self).spec_embeddings().last().vector_nonce@,
                        final(self).spec_embeddings().last().vector_ct@,
                    ) == Some(packed_bytes_of(vector@))
                },
                Err(_) => *final(self) == *old(self),
            },
    {
        if embedding_id_taken(&self.embeddings, id.as_str()) {
            return Err("embedding id collision".to_owned());
        }
        let created_at = now_rfc3339();
        let bytes = pack_words(vector);
        let pair = self.crypto.encrypt(bytes.as_slice());
        let row = EmbeddingRow {
            id: id.clone(),
            speaker_id: speaker_id.to_owned(),
            vector_nonce: pair.0,
            vector_ct: pair.1,
            source_session_id: session_id.to_owned(),
            created_at,
        };
        self.embeddings.push(row);
        proof {
            assert(self.spec_embeddings().drop_last() =~= old(self).spec_embeddings());
            assert forall|a: int, b: int|
                0 <= a < b < self.spec_embeddings().len() implies self.spec_embeddings()[a].id@
                != self.spec_embeddings()[b].id@ by {
                if b < self.spec_embeddings().len() - 1 {
                    assert(old(self).spec_embeddings()[a].id@ != old(self).spec_embeddings()[b].id@);
                } else {
                    assert(self.spec_embeddings()[a] == old(self).spec_embeddings()[a]);
                }
            }
            assert forall|w: int|
                0 <= w < self.spec_embeddings().len() implies self.spec_has_speaker(
                #[trigger] self.spec_embeddings()[w].speaker_id@,
            ) by {
                if w < self.spec_embeddings().len() - 1 {
                    assert(self.spec_embeddings()[w] == old(self).spec_embeddings()[w]);
                    assert(old(self).spec_has_speaker(old(self).spec_embeddings()[w].speaker_id@));
                }
            }
        }
        Ok(id)
    }

    /// Inserts an embedding for a speaker under a fresh random identifier.
    /// Fails only when the fresh identifier collides with an existing row,
    /// and leaves the store untouched then.
    pub fn insert_embedding(&mut self, speaker_id: &str, session_id: &str, vector: &Vec<u32>) -> (r:
        Result<String, String>)
        requires
            old(self).wf(),
            old(self).spec_has_speaker(speaker_id@),
            4 * vector@.len() <= AEAD_PT_LIMIT,
        ensures
            final(self).wf(),
            match r {
                Ok(id) => {
                    &&& Db::same_engine(*old(self), *final(self))
                    &&& final(self).spec_sessions() == old(self).spec_sessions()
                    &&& final(self).spec_speakers() == old(self).spec_speakers()
                    &&& final(self).spec_segments() == old(self).spec_segments()
                    &&& final(self).spec_embeddings().len() == old(self).spec_embeddings().len()
                        + 1
                    &&& final(self).spec_embeddings().drop_last() =~= old(self).spec_embeddings()
                    &&& final(self).spec_embeddings().last().id@ == id@
                    &&& final(self).spec_embeddings().last().speaker_id@ == speaker_id@
                    &&& final(self).spec_embeddings().last().source_session_id@ == session_id@
                    &&& !has_embedding_id(old(self).spec_embeddings(), id@)
                    &&& old(self).payload_of(
                        final(self).spec_embeddings().last().vector_nonce@,
                        final(self).spec_embeddings().last().vector_ct@,
                    ) == Some(packed_bytes_of(vector@))
                },
                Err(_) => *final(self) == *old(self),
            },
    {
        let id = new_uuid();
        self.insert_embedding_with_id(id, speaker_id, session_id, vector)
    }

    /// Lists every stored embedding with its vector decrypted and unpacked
    /// and the owning speaker's label joined on, in insertion order —
    /// callers must not assume an order. A row that refuses to decrypt
    /// aborts the listing; a row whose decrypted payload is not a whole
    /// number of components is skipped as corrupt instead.
    pub fn list_embeddings(&self) -> (r: Result<Vec<StoredEmbedding>, String>)
        requires
            self.wf(),
        ensures
            ({
                let kept = self.readable_embeddings();
                match r {
                    Ok(v) => {
                        &&& forall|i: int|
                            0 <= i < self.spec_embeddings().len() ==> self.payload_of(
                                #[trigger] self.spec_embeddings()[i].vector_nonce@,
                                self.spec_embeddings()[i].vector_ct@,
                            ) is Some
                        &&& v@.len() == kept.len()
                        &&& forall|i: int|
                            0 <= i < v@.len() ==> {
                                let row = kept[i];
                                let rec = #[trigger] v@[i];
                                &&& rec.id == row.id
                                &&& rec.speaker_id == row.speaker_id
                                &&& opt_view(rec.speaker_label) == self.spec_speaker_label(
                                    row.speaker_id@,
                                )
                                &&& rec.source_session_id == row.source_session_id
                                &&& rec.created_at == row.created_at
                                &&& rec.vector@ == unpacked_words_of(
                                    self.payload_of(row.vector_nonce@, row.vector_ct@).unwrap(),
                                )
                            }
                    },
                    Err(_) => exists|i: int|
                        0 <= i < self.spec_embeddings().len() && self.payload_of(
                            #[trigger] self.spec_embeddings()[i].vector_nonce@,
                            self.spec_embeddings()[i].vector_ct@,
                        ) is None,
                }
            }),
    {
        let mut out: Vec<StoredEmbedding> = Vec::new();
        let mut i: usize = 0;
        while i < self.embeddings.len()
            invariant
                self.wf(),
                i <= self.embeddings@.len(),
                out@.len() == self.spec_embeddings().take(i as int).filter(
                    |x: EmbeddingRow| emb_readable(self.spec_crypto(), x),
                ).len(),
                forall|w: int|
                    0 <= w < i ==> self.payload_of(
                        #[trigger] self.spec_embeddings()[w].vector_nonce@,
                        self.spec_embeddings()[w].vector_ct@,
                    ) is Some,
                forall|w: int|
                    0 <= w < out@.len() ==> {
                        let row = self.spec_embeddings().take(i as int).filter(
                            |x: EmbeddingRow| emb_readable(self.spec_crypto(), x),
                        )[w];
                        let rec = #[trigger] out@[w];
                        &&& rec.id == row.id
                        &&& rec.speaker_id == row.speaker_id
                        &&& opt_view(rec.speaker_label) == self.spec_speaker_label(row.speaker_id@)
                        &&& rec.source_session_id == row.source_session_id
                        &&& rec.created_at == row.created_at
                        &&& rec.vector@ == unpacked_words_of(
                            self.payload_of(row.vector_nonce@, row.vector_ct@).unwrap(),
                        )
                    },
            decreases self.embeddings@.len() - i,
        {
            proof {
                lemma_filter_take_step(
                    self.spec_embeddings(),
                    i as int,
                    |x: EmbeddingRow| emb_readable(self.spec_crypto(), x),
                );
            }
            let row = &self.embeddings[i];
            let bytes = match self.crypto.decrypt(row.vector_nonce.as_str(), row.vector_ct.as_str()) {
                Ok(b) => b,
                Err(e) => {
                    return Err(e);
                },
            };
            match unpack_words(&bytes) {
                Some(words) => {
                    let label: Option<String> = match speaker_with_id(
                        &self.speakers,
                        row.speaker_id.as_str(),
                    ) {
                        Some(sp) => clone_opt_string(&sp.label),
                        None => None,
                    };
                    proof {
                        if self.spec_has_speaker(row.speaker_id@) {
                            let j = choose|j: int|
                                0 <= j < self.spec_speakers().len()
                                    && #[trigger] self.spec_speakers()[j].id@ == row.speaker_id@;
                            assert(opt_view(label) == opt_view(self.spec_speakers()[j].label));
                        }
                    }
                    out.push(
                        StoredEmbedding {
                            id: row.id.clone(),
                            speaker_id: row.speaker_id.clone(),
                            speaker_label: label,
                            vector: words,
                            source_session_id: row.source_session_id.clone(),
                            created_at: row.created_at.clone(),
                        },
                    );
                },
                None => {},
            }
            i += 1;
        }
        proof {
            assert(self.spec_embeddings().take(self.spec_embeddings().len() as int)
                =~= self.spec_embeddings());
        }
        Ok(out)
    }

    /// The session rows as persisted, for mirroring to a backing file.
    pub fn session_rows(&self) -> (r: &Vec<SessionRow>)
        ensures
            r@ == self.spec_sessions(),
    {
        &self.sessions
    }

    /// The speaker rows as persisted, for mirroring to a backing file.
    pub fn speaker_rows(&self) -> (r: &Vec<SpeakerRow>)
        ensures
            r@ == self.spec_speakers(),
    {
        &self.speakers
    }

    /// The segment rows as persisted, for mirroring to a backing file.
    pub fn segment_rows(&self) -> (r: &Vec<SegmentRow>)
        ensures
            r@ == self.spec_segments(),
    {
        &self.segments
    }

    /// The embedding rows as persisted, for mirroring to a backing file.
    pub fn embedding_rows(&self) -> (r: &Vec<EmbeddingRow>)
        ensures
            r@ == self.spec_embeddings(),
    {
        &self.embeddings
    }
}

/// Whether the engine recovers this embedding row's payload and the payload
/// has a whole number of 4-byte components.
pub open spec fn emb_readable(c: Crypto, row: EmbeddingRow) -> bool {
    match c.decryption_of(row.vector_nonce@, row.vector_ct@) {
        Some(b) => b.len() % 4 == 0,
        None => false,
    }
}

/// Whether no two session rows share an identifier.
fn sessions_ids_distinct(rows: &Vec<SessionRow>) -> (r: bool)
    ensures
        r == sessions_distinct(rows@),
{
    let mut i: usize = 0;
    while i < rows.len()
        invariant
            i <= rows@.len(),
            forall|a: int, b: int| 0 <= a < b < i ==> rows@[a].id@ != rows@[b].id@,
        decreases rows@.len() - i,
    {
        let mut j: usize = 0;
        while j < i
            invariant
                j <= i < rows@.len(),
                forall|b: int| 0 <= b < j ==> #[trigger] rows@[b].id@ != rows@[i as int].id@,
            decreases i - j,
        {
            if rows[j].id == rows[i].id {
                return false;
            }
            j += 1;
        }
        i += 1;
    }
    true
}

/// Whether no two speaker rows share an identifier.
fn speakers_ids_distinct(rows: &Vec<SpeakerRow>) -> (r: bool)
    ensures
        r == speakers_distinct(rows@),
{
    let mut i: usize = 0;
    while i < rows.len()
        invariant
            i <= rows@.len(),
            forall|a: int, b: int| 0 <= a < b < i ==> rows@[a].id@ != rows@[b].id@,
        decreases rows@.len() - i,
    {
        let mut j: usize = 0;
        while j < i
            invariant
                j <= i < rows@.len(),
                forall|b: int| 0 <= b < j ==> #[trigger] rows@[b].id@ != rows@[i as int].id@,
            decreases i - j,
        {
            if rows[j].id == rows[i].id {
                return false;
            }
            j += 1;
        }
        i += 1;
    }
    true
}

/// Whether no two segment rows share an identifier.
fn segments_ids_distinct(rows: &Vec<SegmentRow>) -> (r: bool)
    ensures
        r == segments_distinct(rows@),
{
    let mut i: usize = 0;
    while i < rows.len()
        invariant
            i <= rows@.len(),
            forall|a: int, b: int| 0 <= a < b < i ==> rows@[a].id@ != rows@[b].id@,
        decreases rows@.len() - i,
    {
        let mut j: usize = 0;
        while j < i
            invariant
                j <= i < rows@.len(),
                forall|b: int| 0 <= b < j ==> #[trigger] rows@[b].id@ != rows@[i as int].id@,
            decreases i - j,
        {
            if rows[j].id == rows[i].id {
                return false;
            }
            j += 1;
        }
        i += 1;
    }
    true
}

/// Whether no two embedding rows share an identifier.
fn embeddings_ids_distinct(rows: &Vec<EmbeddingRow>) -> (r: bool)
    ensures
        r == embeddings_distinct(rows@),
{
    let mut i: usize = 0;
    while i < rows.len()
        invariant
            i <= rows@.len(),
            forall|a: int, b: int| 0 <= a < b < i ==> rows@[a].id@ != rows@[b].id@,
        decreases rows@.len() - i,
    {
        let mut j: usize = 0;
        while j < i
            invariant
                j <= i < rows@.len(),
                forall|b: int| 0 <= b < j ==> #[trigger] rows@[b].id@ != rows@[i as int].id@,
            decreases i - j,
        {
            if rows[j].id == rows[i].id {
                return false;
            }
            j += 1;
        }
        i += 1;
    }
    true
}

/// Whether every embedding row's owner is among the speaker rows.
fn embeddings_reference_speakers(rows: &Vec<EmbeddingRow>, speakers: &Vec<SpeakerRow>) -> (r: bool)
    ensures
        r == forall|i: int|
            0 <= i < rows@.len() ==> has_speaker_id(speakers@, #[trigger] rows@[i].speaker_id@),
{
    let mut i: usize = 0;
    while i < rows.len()
        invariant
            i <= rows@.len(),
            forall|k: int|
                0 <= k < i ==> has_speaker_id(speakers@, #[trigger] rows@[k].speaker_id@),
        decreases rows@.len() - i,
    {
        if speaker_with_id(speakers, rows[i].speaker_id.as_str()).is_none() {
            return false;
        }
        i += 1;
    }
    true
}

/// Whether every segment row's speaker reference, where present, is among
/// the speaker rows.
fn segments_reference_speakers(rows: &Vec<SegmentRow>, speakers: &Vec<SpeakerRow>) -> (r: bool)
    ensures
        r == forall|i: int|
            0 <= i < rows@.len() ==> match #[trigger] rows@[i].speaker_id {
                Some(s) => has_speaker_id(speakers@, s@),
                None => true,
            },
{
    let mut i: usize = 0;
    while i < rows.len()
        invariant
            i <= rows@.len(),
            forall|k: int|
                0 <= k < i ==> match #[trigger] rows@[k].speaker_id {
                    Some(s) => has_speaker_id(speakers@, s@),
                    None => true,
                },
        decreases rows@.len() - i,
    {
        let present = match &rows[i].speaker_id {
            Some(s) => speaker_with_id(speakers, s.as_str()).is_some(),
            None => true,
        };
        if !present {
            return false;
        }
        i += 1;
    }
    true
}

/// Every embedding row the listing emits is a stored row, so its owner
/// exists in a well-formed store.
pub proof fn lemma_readable_embeddings_members(db: Db)
    requires
        db.wf(),
    ensures
        forall|k: int|
            0 <= k < db.readable_embeddings().len() ==> db.spec_has_speaker(
                #[trigger] db.readable_embeddings()[k].speaker_id@,
            ),
{
    lemma_filter_elements(
        db.spec_embeddings(),
        |x: EmbeddingRow| emb_readable(db.spec_crypto(), x),
    );
    assert forall|k: int|
        0 <= k < db.readable_embeddings().len() implies db.spec_has_speaker(
        #[trigger] db.readable_embeddings()[k].speaker_id@,
    ) by {
        let e = db.readable_embeddings()[k];
        assert(db.spec_embeddings().contains(e));
        let v = choose|v: int|
            0 <= v < db.spec_embeddings().len() && db.spec_embeddings()[v] == e;
        assert(db.spec_has_speaker(db.spec_embeddings()[v].speaker_id@));
    }
}

/// Whether a segment row with this identifier exists.
fn segment_id_taken(rows: &Vec<SegmentRow>, id: &str) -> (r: bool)
    ensures
        r == has_segment_id(rows@, id@),
{
    let id_owned: String = id.to_owned();
    let mut i: usize = 0;
    while i < rows.len()
        invariant
            i <= rows@.len(),
            id_owned@ == id@,
            forall|k: int| 0 <= k < i ==> #[trigger] rows@[k].id@ != id@,
        decreases rows@.len() - i,
    {
        if rows[i].id == id_owned {
            return true;
        }
        i += 1;
    }
    false
}

/// Whether an embedding row with this identifier exists.
fn embedding_id_taken(rows: &Vec<EmbeddingRow>, id: &str) -> (r: bool)
    ensures
        r == has_embedding_id(rows@, id@),
{
    let id_owned: String = id.to_owned();
    let mut i: usize = 0;
    while i < rows.len()
        invariant
            i <= rows@.len(),
            id_owned@ == id@,
            forall|k: int| 0 <= k < i ==> #[trigger] rows@[k].id@ != id@,
        decreases rows@.len() - i,
    {
        if rows[i].id == id_owned {
            return true;
        }
        i += 1;
    }
    false
}

/// Appending a speaker row keeps every reference into the speaker table
/// valid.
proof fn lemma_more_speakers_keep_references(pre: Db, post: Db)
    requires
        pre.wf(),
        post.spec_crypto() == pre.spec_crypto(),
        post.spec_encrypted() == pre.spec_encrypted(),
        post.spec_segments() == pre.spec_segments(),
        post.spec_embeddings() == pre.spec_embeddings(),
        post.spec_speakers().len() >= pre.spec_speakers().len(),
        forall|i: int|
            0 <= i < pre.spec_speakers().len() ==> #[trigger] post.spec_speakers()[i]
                == pre.spec_speakers()[i],
    ensures
        forall|w: int|
            0 <= w < post.spec_embeddings().len() ==> post.spec_has_speaker(
                #[trigger] post.spec_embeddings()[w].speaker_id@,
            ),
        forall|w: int|
            0 <= w < post.spec_segments().len()
                ==> match #[trigger] post.spec_segments()[w].speaker_id {
                Some(s) => post.spec_has_speaker(s@),
                None => true,
            },
{
    assert forall|w: int|
        0 <= w < post.spec_embeddings().len() implies post.spec_has_speaker(
        #[trigger] post.spec_embeddings()[w].speaker_id@,
    ) by {
        let x = post.spec_embeddings()[w].speaker_id@;
        assert(pre.spec_has_speaker(x));
        let idx = choose|idx: int|
            0 <= idx < pre.spec_speakers().len() && #[trigger] pre.spec_speakers()[idx].id@ == x;
        assert(post.spec_speakers()[idx].id@ == x);
    }
    assert forall|w: int|
        0 <= w < post.spec_segments().len() implies match #[trigger] post.spec_segments()[w].speaker_id {
        Some(s) => post.spec_has_speaker(s@),
        None => true,
    } by {
        match post.spec_segments()[w].speaker_id {
            Some(s) => {
                assert(pre.spec_has_speaker(s@));
                let idx = choose|idx: int|
                    0 <= idx < pre.spec_speakers().len() && #[trigger] pre.spec_speakers()[idx].id@
                        == s@;
                assert(post.spec_speakers()[idx].id@ == s@);
            },
            None => {},
        }
    }
}

/// A store whose speaker identifiers are unchanged row for row, whose
/// embeddings are unchanged, and whose segments kept their speaker
/// references is still well-formed.
proof fn lemma_same_speaker_ids_keep_references(pre: Db, post: Db)
    requires
        pre.wf(),
        post.spec_crypto() == pre.spec_crypto(),
        post.spec_encrypted() == pre.spec_encrypted(),
        post.spec_sessions() == pre.spec_sessions(),
        post.spec_embeddings() == pre.spec_embeddings(),
        post.spec_speakers().len() == pre.spec_speakers().len(),
        forall|i: int|
            0 <= i < pre.spec_speakers().len() ==> #[trigger] post.spec_speakers()[i].id@
                == pre.spec_speakers()[i].id@,
        post.spec_segments().len() == pre.spec_segments().len(),
        forall|i: int|
            0 <= i < pre.spec_segments().len() ==> #[trigger] post.spec_segments()[i].id@
                == pre.spec_segments()[i].id@,
        forall|i: int|
            0 <= i < pre.spec_segments().len() ==> #[trigger] post.spec_segments()[i].speaker_id
                == pre.spec_segments()[i].speaker_id,
    ensures
        post.wf(),
{
    assert forall|a: int, b: int|
        0 <= a < b < post.spec_speakers().len() implies post.spec_speakers()[a].id@
        != post.spec_speakers()[b].id@ by {
        assert(pre.spec_speakers()[a].id@ != pre.spec_speakers()[b].id@);
    }
    assert forall|a: int, b: int|
        0 <= a < b < post.spec_segments().len() implies post.spec_segments()[a].id@
        != post.spec_segments()[b].id@ by {
        assert(pre.spec_segments()[a].id@ != pre.spec_segments()[b].id@);
    }
    assert forall|w: int|
        0 <= w < post.spec_embeddings().len() implies post.spec_has_speaker(
        #[trigger] post.spec_embeddings()[w].speaker_id@,
    ) by {
        let x = post.spec_embeddings()[w].speaker_id@;
        assert(pre.spec_has_speaker(x));
        let idx = choose|idx: int|
            0 <= idx < pre.spec_speakers().len() && #[trigger] pre.spec_speakers()[idx].id@ == x;
        assert(post.spec_speakers()[idx].id@ == x);
    }
    assert forall|w: int|
        0 <= w < post.spec_segments().len() implies match #[trigger] post.spec_segments()[w].speaker_id {
        Some(s) => post.spec_has_speaker(s@),
        None => true,
    } by {
        match post.spec_segments()[w].speaker_id {
            Some(s) => {
                assert(pre.spec_segments()[w].speaker_id == post.spec_segments()[w].speaker_id);
                assert(pre.spec_has_speaker(s@));
                let idx = choose|idx: int|
                    0 <= idx < pre.spec_speakers().len() && #[trigger] pre.spec_speakers()[idx].id@
                        == s@;
                assert(post.spec_speakers()[idx].id@ == s@);
            },
            None => {},
        }
    }
}

/// Whether a speaker row with this identifier exists.
fn speaker_id_taken(rows: &Vec<SpeakerRow>, id: &str) -> (r: bool)
    ensures
        r == has_speaker_id(rows@, id@),
{
    let id_owned: String = id.to_owned();
    let mut i: usize = 0;
    while i < rows.len()
        invariant
            i <= rows@.len(),
            id_owned@ == id@,
            forall|k: int| 0 <= k < i ==> #[trigger] rows@[k].id@ != id@,
        decreases rows@.len() - i,
    {
        if rows[i].id == id_owned {
            return true;
        }
        i += 1;
    }
    false
}

/// The view of an optional borrowed string.
pub open spec fn opt_str_view(o: Option<&str>) -> Option<Seq<char>> {
    match o {
        Some(s) => Some(s@),
        None => None,
    }
}

/// Inserting a row into a start-time-sorted run: rows strictly later than
/// the new one shift right, and the new row lands after any row that starts
/// no later, so rows with equal starts keep their relative order.
pub open spec fn insert_by_start(s: Seq<SegmentRow>, x: SegmentRow) -> Seq<SegmentRow>
    decreases s.len(),
{
    if s.len() == 0 {
        seq![x]
    } else if s.last().start_ms <= x.start_ms {
        s.push(x)
    } else {
        insert_by_start(s.drop_last(), x).push(s.last())
    }
}

/// The stable ascending ordering of segment rows by `start_ms`.
pub open spec fn sort_by_start(s: Seq<SegmentRow>) -> Seq<SegmentRow>
    decreases s.len(),
{
    if s.len() == 0 {
        Seq::empty()
    } else {
        insert_by_start(sort_by_start(s.drop_last()), s.last())
    }
}

/// Inserting into a run keeps its length plus one and its contents plus the
/// new row.
pub proof fn lemma_insert_by_start_multiset(s: Seq<SegmentRow>, x: SegmentRow)
    ensures
        insert_by_start(s, x).len() == s.len() + 1,
        insert_by_start(s, x).to_multiset() =~= s.to_multiset().insert(x),
    decreases s.len(),
{
    broadcast use vstd::seq_lib::group_to_multiset_ensures;

    if s.len() == 0 {
        assert(insert_by_start(s, x) =~= Seq::<SegmentRow>::empty().push(x));
        assert(s =~= Seq::<SegmentRow>::empty());
    } else if s.last().start_ms <= x.start_ms {
    } else {
        lemma_insert_by_start_multiset(s.drop_last(), x);
        assert(s =~= s.drop_last().push(s.last()));
        assert(s.to_multiset() =~= s.drop_last().to_multiset().insert(s.last()));
        assert(insert_by_start(s, x).to_multiset() =~= insert_by_start(
            s.drop_last(),
            x,
        ).to_multiset().insert(s.last()));
        assert(s.drop_last().to_multiset().insert(x).insert(s.last())
            =~= s.drop_last().to_multiset().insert(s.last()).insert(x));
    }
}

/// Sorting keeps the rows: same length, same contents.
pub proof fn lemma_sort_by_start_multiset(s: Seq<SegmentRow>)
    ensures
        sort_by_start(s).len() == s.len(),
        sort_by_start(s).to_multiset() =~= s.to_multiset(),
    decreases s.len(),
{
    broadcast use vstd::seq_lib::group_to_multiset_ensures;

    if s.len() == 0 {
        assert(sort_by_start(s) =~= Seq::<SegmentRow>::empty());
        assert(s =~= Seq::<SegmentRow>::empty());
    } else {
        lemma_sort_by_start_multiset(s.drop_last());
        lemma_insert_by_start_multiset(sort_by_start(s.drop_last()), s.last());
        assert(s =~= s.drop_last().push(s.last()));
        assert(s.to_multiset() =~= s.drop_last().to_multiset().insert(s.last()));
    }
}

/// Inserting into a sorted run keeps it sorted.
proof fn lemma_insert_by_start_sorted(s: Seq<SegmentRow>, x: SegmentRow)
    requires
        forall|i: int, j: int| 0 <= i < j < s.len() ==> s[i].start_ms <= s[j].start_ms,
    ensures
        forall|i: int, j: int|
            0 <= i < j < insert_by_start(s, x).len() ==> insert_by_start(s, x)[i].start_ms
                <= insert_by_start(s, x)[j].start_ms,
    decreases s.len(),
{
    let out = insert_by_start(s, x);
    if s.len() == 0 {
    } else if s.last().start_ms <= x.start_ms {
        assert forall|i: int, j: int|
            0 <= i < j < out.len() implies out[i].start_ms <= out[j].start_ms by {
            if j == out.len() - 1 {
                assert(out[i] == s[i]);
                if i < s.len() - 1 {
                    assert(s[i].start_ms <= s[s.len() - 1].start_ms);
                }
            }
        }
    } else {
        let sub = insert_by_start(s.drop_last(), x);
        assert forall|i: int, j: int|
            0 <= i < j < s.drop_last().len() implies s.drop_last()[i].start_ms
            <= s.drop_last()[j].start_ms by {
            assert(s.drop_last()[i] == s[i]);
            assert(s.drop_last()[j] == s[j]);
        }
        lemma_insert_by_start_sorted(s.drop_last(), x);
        lemma_insert_by_start_multiset(s.drop_last(), x);
        broadcast use vstd::seq_lib::group_to_multiset_ensures;

        assert forall|i: int, j: int|
            0 <= i < j < out.len() implies out[i].start_ms <= out[j].start_ms by {
            if j == out.len() - 1 {
                assert(out[j] == s.last());
                assert(out[i] == sub[i]);
                assert(sub.contains(sub[i]));
                assert(sub.to_multiset().count(sub[i]) > 0);
                if sub[i] == x {
                    assert(x.start_ms <= s.last().start_ms);
                } else {
                    assert(s.drop_last().to_multiset().count(sub[i]) > 0);
                    assert(s.drop_last().contains(sub[i]));
                    let w = choose|w: int|
                        0 <= w < s.drop_last().len() && s.drop_last()[w] == sub[i];
                    assert(s[w].start_ms <= s[s.len() - 1].start_ms);
                }
            } else {
                assert(out[i] == sub[i]);
                assert(out[j] == sub[j]);
            }
        }
    }
}

/// The ordering law of the segment listing: the stable sort is ascending in
/// `start_ms`.
pub proof fn lemma_sort_by_start_sorted(s: Seq<SegmentRow>)
    ensures
        forall|i: int, j: int|
            0 <= i < j < sort_by_start(s).len() ==> sort_by_start(s)[i].start_ms <= sort_by_start(
                s,
            )[j].start_ms,
    decreases s.len(),
{
    if s.len() > 0 {
        lemma_sort_by_start_sorted(s.drop_last());
        lemma_insert_by_start_sorted(sort_by_start(s.drop_last()), s.last());
    }
}

/// Inserting at the position the exec search finds is the specified
/// insertion: everything from `pos` on starts strictly later, and the row
/// right before `pos`, if any, starts no later.
proof fn lemma_insert_by_start_at(s: Seq<SegmentRow>, x: SegmentRow, pos: int)
    requires
        0 <= pos <= s.len(),
        forall|m: int| pos <= m < s.len() ==> s[m].start_ms > x.start_ms,
        pos > 0 ==> s[pos - 1].start_ms <= x.start_ms,
    ensures
        insert_by_start(s, x) =~= s.insert(pos, x),
    decreases s.len(),
{
    if s.len() == 0 {
    } else if pos == s.len() {
        assert(s.last().start_ms <= x.start_ms);
    } else {
        assert(s[s.len() - 1].start_ms > x.start_ms);
        assert forall|m: int| pos <= m < s.drop_last().len() implies s.drop_last()[m].start_ms
            > x.start_ms by {
            assert(s.drop_last()[m] == s[m]);
        }
        lemma_insert_by_start_at(s.drop_last(), x, pos);
        assert(insert_by_start(s, x) =~= s.drop_last().insert(pos, x).push(s.last()));
    }
}

/// Sorts segment rows ascending by `start_ms`, stably.
fn sort_segment_rows(rows: Vec<SegmentRow>) -> (r: Vec<SegmentRow>)
    ensures
        r@ == sort_by_start(rows@),
{
    let mut out: Vec<SegmentRow> = Vec::new();
    let mut k: usize = 0;
    while k < rows.len()
        invariant
            k <= rows@.len(),
            out@ =~= sort_by_start(rows@.take(k as int)),
        decreases rows@.len() - k,
    {
        proof {
            lemma_sort_by_start_multiset(rows@.take(k as int));
        }
        let x = clone_segment_row(&rows[k]);
        let mut pos: usize = out.len();
        while pos > 0 && out[pos - 1].start_ms > x.start_ms
            invariant
                pos <= out@.len(),
                forall|m: int| pos <= m < out@.len() ==> out@[m].start_ms > x.start_ms,
            decreases pos,
        {
            pos -= 1;
        }
        proof {
            lemma_insert_by_start_at(out@, x, pos as int);
            assert(rows@.take(k as int + 1).drop_last() =~= rows@.take(k as int));
            assert(rows@.take(k as int + 1).last() == rows@[k as int]);
        }
        out.insert(pos, x);
        k += 1;
    }
    proof {
        assert(rows@.take(rows@.len() as int) =~= rows@);
    }
    out
}

/// Finds the first speaker row with this identifier.
fn speaker_with_id<'a>(rows: &'a Vec<SpeakerRow>, id: &str) -> (r: Option<&'a SpeakerRow>)
    ensures
        match r {
            Some(row) => exists|i: int|
                0 <= i < rows@.len() && #[trigger] rows@[i].id@ == id@ && rows@[i] == *row,
            None => forall|i: int| 0 <= i < rows@.len() ==> #[trigger] rows@[i].id@ != id@,
        },
        r is Some <==> has_speaker_id(rows@, id@),
{
    let id_owned: String = id.to_owned();
    let mut i: usize = 0;
    while i < rows.len()
        invariant
            i <= rows@.len(),
            id_owned@ == id@,
            forall|k: int| 0 <= k < i ==> #[trigger] rows@[k].id@ != id@,
        decreases rows@.len() - i,
    {
        if rows[i].id == id_owned {
            return Some(&rows[i]);
        }
        i += 1;
    }
    None
}

/// Whether a session row with this identifier exists.
fn session_id_taken(rows: &Vec<SessionRow>, id: &str) -> (r: bool)
    ensures
        r == has_session_id(rows@, id@),
{
    let id_owned: String = id.to_owned();
    let mut i: usize = 0;
    while i < rows.len()
        invariant
            i <= rows@.len(),
            id_owned@ == id@,
            forall|k: int| 0 <= k < i ==> #[trigger] rows@[k].id@ != id@,
        decreases rows@.len() - i,
    {
        if rows[i].id == id_owned {
            return true;
        }
        i += 1;
    }
    false
}

} // verus!

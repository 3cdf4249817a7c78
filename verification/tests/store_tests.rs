use recall::crypto::Crypto;
use recall::store::Db;
use recall::store::EmbeddingRow;
use recall::store::SpeakerRow;

fn keyed_db() -> Db {
    Db::open(Crypto::new(Some("store passphrase"), None))
}

#[test]
fn open_persists_salt() {
    let crypto = Crypto::new(Some("pw"), None);
    let salt = crypto.salt().expect("keyed engine has a salt");
    let db = Db::open(crypto);
    assert!(db.encrypted);
    assert_eq!(db.load_salt().unwrap().as_deref(), Some(salt.as_str()));
}

#[test]
fn unkeyed_open_has_no_salt() {
    let db = Db::open(Crypto::new(None, None));
    assert!(!db.encrypted);
    assert_eq!(db.load_salt().unwrap(), None);
}

#[test]
fn session_round_trip_and_order() {
    let mut db = keyed_db();
    let first = db.insert_session("first transcript").unwrap();
    let second = db.insert_session("second transcript").unwrap();
    assert_ne!(first, second);
    let sessions = db.list_sessions().unwrap();
    assert_eq!(sessions.len(), 2);
    // Newest-created-first.
    assert_eq!(sessions[0].id, second);
    assert_eq!(sessions[0].transcript, "second transcript");
    assert_eq!(sessions[1].id, first);
    assert_eq!(sessions[1].transcript, "first transcript");
}

#[test]
fn update_session_transcript_replaces_text() {
    let mut db = keyed_db();
    let id = db.insert_session("before").unwrap();
    db.update_session_transcript(&id, "after").unwrap();
    let sessions = db.list_sessions().unwrap();
    assert_eq!(sessions.len(), 1);
    assert_eq!(sessions[0].transcript, "after");
}

#[test]
fn delete_session_cascades() {
    let mut db = keyed_db();
    let kept = db.insert_session("kept").unwrap();
    let doomed = db.insert_session("doomed").unwrap();
    let speaker = db.insert_speaker(Some("A")).unwrap();
    db.insert_segment(&kept, 0, 10, Some(&speaker), Some("A"), "kept seg").unwrap();
    db.insert_segment(&doomed, 0, 10, Some(&speaker), Some("A"), "doomed seg").unwrap();
    db.insert_embedding(&speaker, &kept, &vec![1u32, 2, 3]).unwrap();
    db.insert_embedding(&speaker, &doomed, &vec![4u32, 5, 6]).unwrap();

    db.delete_session(&doomed).unwrap();

    let sessions = db.list_sessions().unwrap();
    assert_eq!(sessions.len(), 1);
    assert_eq!(sessions[0].id, kept);
    assert_eq!(db.list_segments(&doomed).unwrap().len(), 0);
    let kept_segments = db.list_segments(&kept).unwrap();
    assert_eq!(kept_segments.len(), 1);
    assert_eq!(kept_segments[0].text, "kept seg");
    let embeddings = db.list_embeddings().unwrap();
    assert_eq!(embeddings.len(), 1);
    assert_eq!(embeddings[0].source_session_id, kept);
    // The speaker row itself is untouched.
    assert_eq!(db.list_speakers().unwrap().len(), 1);
}

#[test]
fn delete_speaker_clears_identity_but_keeps_segments() {
    let mut db = keyed_db();
    let session = db.insert_session("s").unwrap();
    let doomed = db.insert_speaker(Some("Doomed")).unwrap();
    let kept = db.insert_speaker(Some("Kept")).unwrap();
    db.insert_segment(&session, 0, 10, Some(&doomed), Some("Doomed"), "a").unwrap();
    db.insert_segment(&session, 10, 20, Some(&kept), Some("Kept"), "b").unwrap();
    db.insert_embedding(&doomed, &session, &vec![1u32]).unwrap();
    db.insert_embedding(&kept, &session, &vec![2u32]).unwrap();

    db.delete_speaker(&doomed).unwrap();

    let speakers = db.list_speakers().unwrap();
    assert_eq!(speakers.len(), 1);
    assert_eq!(speakers[0].id, kept);
    let embeddings = db.list_embeddings().unwrap();
    assert_eq!(embeddings.len(), 1);
    assert_eq!(embeddings[0].speaker_id, kept);
    let segments = db.list_segments(&session).unwrap();
    assert_eq!(segments.len(), 2);
    assert_eq!(segments[0].speaker_id, None);
    assert_eq!(segments[0].speaker_label, None);
    assert_eq!(segments[0].text, "a");
    assert_eq!(segments[1].speaker_id.as_deref(), Some(kept.as_str()));
    assert_eq!(segments[1].speaker_label.as_deref(), Some("Kept"));
}

#[test]
fn rename_speaker_propagates_to_segments() {
    let mut db = keyed_db();
    let session = db.insert_session("s").unwrap();
    let renamed = db.insert_speaker(Some("Speaker 1")).unwrap();
    let other = db.insert_speaker(Some("Speaker 2")).unwrap();
    db.insert_segment(&session, 0, 10, Some(&renamed), Some("Speaker 1"), "x").unwrap();
    db.insert_segment(&session, 10, 20, Some(&other), Some("Speaker 2"), "y").unwrap();
    db.insert_segment(&session, 20, 30, Some(&renamed), Some("Speaker 1"), "z").unwrap();

    db.rename_speaker(&renamed, "Alice").unwrap();

    let speakers = db.list_speakers().unwrap();
    assert_eq!(speakers[0].label.as_deref(), Some("Alice"));
    assert_eq!(speakers[1].label.as_deref(), Some("Speaker 2"));
    let segments = db.list_segments(&session).unwrap();
    assert_eq!(segments[0].speaker_label.as_deref(), Some("Alice"));
    assert_eq!(segments[1].speaker_label.as_deref(), Some("Speaker 2"));
    assert_eq!(segments[2].speaker_label.as_deref(), Some("Alice"));
}

#[test]
fn rename_missing_speaker_changes_nothing() {
    let mut db = keyed_db();
    let id = db.insert_speaker(Some("A")).unwrap();
    db.rename_speaker("no-such-id", "B").unwrap();
    let speakers = db.list_speakers().unwrap();
    assert_eq!(speakers.len(), 1);
    assert_eq!(speakers[0].id, id);
    assert_eq!(speakers[0].label.as_deref(), Some("A"));
}

#[test]
fn segments_listed_by_start_time() {
    let mut db = keyed_db();
    let session = db.insert_session("s").unwrap();
    db.insert_segment(&session, 300, 400, None, Some("c"), "third").unwrap();
    db.insert_segment(&session, 100, 200, None, Some("a"), "first").unwrap();
    db.insert_segment(&session, 200, 300, None, Some("b"), "second").unwrap();
    let segments = db.list_segments(&session).unwrap();
    assert_eq!(segments.len(), 3);
    assert_eq!(segments[0].text, "first");
    assert_eq!(segments[1].text, "second");
    assert_eq!(segments[2].text, "third");
    // Rows of other sessions stay out.
    assert_eq!(db.list_segments("other").unwrap().len(), 0);
}

#[test]
fn embedding_round_trip_with_label_join() {
    let mut db = keyed_db();
    let session = db.insert_session("s").unwrap();
    let speaker = db.insert_speaker(Some("Joined")).unwrap();
    let vector: Vec<u32> = vec![0.1f32.to_bits(), 0.2f32.to_bits(), (-0.3f32).to_bits()];
    db.insert_embedding(&speaker, &session, &vector).unwrap();
    let embeddings = db.list_embeddings().unwrap();
    assert_eq!(embeddings.len(), 1);
    assert_eq!(embeddings[0].speaker_id, speaker);
    assert_eq!(embeddings[0].speaker_label.as_deref(), Some("Joined"));
    assert_eq!(embeddings[0].vector, vector);
    assert_eq!(embeddings[0].source_session_id, session);
}

fn speaker_row(id: &str) -> SpeakerRow {
    SpeakerRow { id: id.to_string(), label: None, created_at: "t".to_string() }
}

fn embedding_row(id: &str, speaker_id: &str) -> EmbeddingRow {
    EmbeddingRow {
        id: id.to_string(),
        speaker_id: speaker_id.to_string(),
        vector_nonce: String::new(),
        vector_ct: String::new(),
        source_session_id: "s".to_string(),
        created_at: "t".to_string(),
    }
}

#[test]
fn reopening_adopts_valid_rows() {
    // Write through one store instance, adopt its rows in a second one.
    let crypto = Crypto::new(Some("pw"), None);
    let salt = crypto.salt().unwrap();
    let mut first = Db::open(crypto);
    let session = first.insert_session("persisted transcript").unwrap();
    let speaker = first.insert_speaker(Some("A")).unwrap();
    first.insert_embedding(&speaker, &session, &vec![7u32]).unwrap();

    let reopened = Db::open_existing(
        Crypto::new(Some("pw"), Some(salt)),
        first.load_salt().unwrap(),
        first.session_rows().clone(),
        first.speaker_rows().clone(),
        first.segment_rows().clone(),
        first.embedding_rows().clone(),
    )
    .expect("valid rows are adopted");
    let sessions = reopened.list_sessions().unwrap();
    assert_eq!(sessions.len(), 1);
    assert_eq!(sessions[0].transcript, "persisted transcript");
    assert_eq!(reopened.list_embeddings().unwrap()[0].vector, vec![7u32]);
}

#[test]
fn reopening_rejects_corrupt_rows() {
    let dup = Db::open_existing(
        Crypto::new(None, None),
        None,
        Vec::new(),
        vec![speaker_row("same"), speaker_row("same")],
        Vec::new(),
        Vec::new(),
    );
    assert!(dup.is_err());
    let dangling = Db::open_existing(
        Crypto::new(None, None),
        None,
        Vec::new(),
        vec![speaker_row("sp1")],
        Vec::new(),
        vec![embedding_row("e1", "missing")],
    );
    assert!(dangling.is_err());
}

#[test]
fn listing_fails_closed_under_the_wrong_key() {
    let right = Crypto::new(Some("right"), None);
    let salt = right.salt().unwrap();
    let mut db = Db::open(right);
    let session = db.insert_session("secret transcript").unwrap();
    let speaker = db.insert_speaker(Some("A")).unwrap();
    db.insert_segment(&session, 0, 5, Some(&speaker), Some("A"), "secret text").unwrap();
    db.insert_embedding(&speaker, &session, &vec![1u32, 2]).unwrap();

    let wrong = Db::open_existing(
        Crypto::new(Some("wrong"), Some(salt)),
        db.load_salt().unwrap(),
        db.session_rows().clone(),
        db.speaker_rows().clone(),
        db.segment_rows().clone(),
        db.embedding_rows().clone(),
    )
    .unwrap();
    assert!(wrong.list_sessions().is_err());
    assert!(wrong.list_segments(&session).is_err());
    assert!(wrong.list_embeddings().is_err());
}

#[test]
fn persisted_salt_is_never_overwritten() {
    let crypto = Crypto::new(Some("pw"), None);
    assert_ne!(crypto.salt().unwrap(), "already-persisted");
    let db = Db::open_existing(
        crypto,
        Some("already-persisted".to_string()),
        Vec::new(),
        Vec::new(),
        Vec::new(),
        Vec::new(),
    )
    .unwrap();
    assert_eq!(db.load_salt().unwrap().as_deref(), Some("already-persisted"));
}

#[test]
fn inserting_a_taken_identifier_is_rejected() {
    let mut db = Db::open(Crypto::new(None, None));
    db.insert_session_with_id("sess-1".to_string(), "a").unwrap();
    assert!(db.insert_session_with_id("sess-1".to_string(), "b").is_err());
    assert_eq!(db.list_sessions().unwrap().len(), 1);

    db.insert_speaker_with_id("sp-1".to_string(), Some("A")).unwrap();
    assert!(db.insert_speaker_with_id("sp-1".to_string(), Some("B")).is_err());

    db.insert_segment_with_id("seg-1".to_string(), "sess-1", 0, 5, None, None, "t").unwrap();
    assert!(db.insert_segment_with_id("seg-1".to_string(), "sess-1", 5, 9, None, None, "u").is_err());

    db.insert_embedding_with_id("emb-1".to_string(), "sp-1", "sess-1", &vec![1u32]).unwrap();
    assert!(db.insert_embedding_with_id("emb-1".to_string(), "sp-1", "sess-1", &vec![2u32]).is_err());
    assert_eq!(db.list_embeddings().unwrap().len(), 1);
}

#[test]
fn unkeyed_store_round_trips_too() {
    let mut db = Db::open(Crypto::new(None, None));
    let session = db.insert_session("visible text").unwrap();
    assert_eq!(db.list_sessions().unwrap()[0].transcript, "visible text");
    db.insert_segment(&session, 0, 5, None, None, "seg").unwrap();
    assert_eq!(db.list_segments(&session).unwrap()[0].text, "seg");
}

use recall::audio::DiarizedSegment;
use recall::crypto::Crypto;
use recall::resolver::best_match;
use recall::resolver::ResolverPass;
use recall::store::Db;
use recall::store::StoredEmbedding;

fn stored(speaker_id: &str, label: Option<&str>, vector: Vec<u32>) -> StoredEmbedding {
    StoredEmbedding {
        id: "e".to_string(),
        speaker_id: speaker_id.to_string(),
        speaker_label: label.map(|s| s.to_string()),
        vector,
        source_session_id: "s".to_string(),
        created_at: String::new(),
    }
}

fn bits(scores: &[f32]) -> Vec<u32> {
    scores.iter().map(|s| s.to_bits()).collect()
}

#[test]
fn score_at_threshold_matches() {
    let known = vec![stored("sp1", Some("A"), vec![1, 2, 3])];
    let r = best_match(3, &known, &bits(&[0.78]));
    assert_eq!(r.map(|(i, _)| i), Some(0));
}

#[test]
fn score_below_threshold_does_not_match() {
    let known = vec![stored("sp1", Some("A"), vec![1, 2, 3])];
    assert_eq!(best_match(3, &known, &bits(&[0.7799])), None);
    assert_eq!(best_match(3, &known, &bits(&[0.7799999])), None);
}

#[test]
fn highest_score_wins() {
    let known = vec![
        stored("sp1", None, vec![1, 2, 3]),
        stored("sp2", None, vec![4, 5, 6]),
        stored("sp3", None, vec![7, 8, 9]),
    ];
    let r = best_match(3, &known, &bits(&[0.80, 0.95, 0.90]));
    assert_eq!(r, Some((1, 0.95f32.to_bits())));
}

#[test]
fn ties_keep_the_earliest_candidate() {
    let known = vec![
        stored("sp1", None, vec![1, 2, 3]),
        stored("sp2", None, vec![4, 5, 6]),
    ];
    let r = best_match(3, &known, &bits(&[0.9, 0.9]));
    assert_eq!(r.map(|(i, _)| i), Some(0));
}

#[test]
fn mismatched_vector_lengths_are_ignored() {
    let known = vec![
        stored("short", None, vec![1, 2]),
        stored("right", None, vec![1, 2, 3]),
    ];
    let r = best_match(3, &known, &bits(&[0.99, 0.80]));
    assert_eq!(r.map(|(i, _)| i), Some(1));
    assert_eq!(best_match(4, &known, &bits(&[0.99, 0.99])), None);
}

#[test]
fn unordered_score_never_matches() {
    // An unordered (NaN) score displaces the running best, and then fails
    // the threshold comparison, so nothing matches.
    let known = vec![
        stored("sp1", None, vec![1, 2, 3]),
        stored("sp2", None, vec![4, 5, 6]),
    ];
    assert_eq!(best_match(3, &known, &bits(&[0.9, f32::NAN])), None);
}

fn one_segment(cluster: &str) -> Vec<DiarizedSegment> {
    vec![DiarizedSegment {
        cluster: cluster.to_string(),
        start_ms: 0,
        end_ms: 3000,
        text: "hello there".to_string(),
    }]
}

#[test]
fn first_enrollment_creates_one_speaker() {
    let mut db = Db::open(Crypto::new(Some("pw"), None));
    let session = db.insert_session("hello there").unwrap();
    let mut pass = ResolverPass::begin(&db).unwrap();
    assert_eq!(pass.known.len(), 0);
    assert_eq!(pass.next_label_index, 1);

    let embedding: Vec<u32> = bits(&[0.6, 0.8, 0.0]);
    let scores: Vec<u32> = Vec::new();
    pass.resolve_cluster(&mut db, &session, "speaker_0".to_string(), embedding.clone(), &scores)
        .unwrap();
    pass.persist_segments(&mut db, &session, &one_segment("speaker_0")).unwrap();

    let speakers = db.list_speakers().unwrap();
    assert_eq!(speakers.len(), 1);
    assert_eq!(speakers[0].label.as_deref(), Some("Speaker 1"));
    let embeddings = db.list_embeddings().unwrap();
    assert_eq!(embeddings.len(), 1);
    assert_eq!(embeddings[0].speaker_id, speakers[0].id);
    assert_eq!(embeddings[0].vector, embedding);
    let segments = db.list_segments(&session).unwrap();
    assert_eq!(segments.len(), 1);
    assert_eq!(segments[0].speaker_label.as_deref(), Some("Speaker 1"));
    assert_eq!(segments[0].speaker_id.as_deref(), Some(speakers[0].id.as_str()));
    assert_eq!(segments[0].text, "hello there");
}

#[test]
fn repeat_speaker_reuses_the_profile() {
    let mut db = Db::open(Crypto::new(Some("pw"), None));
    let first_session = db.insert_session("first").unwrap();
    let mut pass = ResolverPass::begin(&db).unwrap();
    let embedding: Vec<u32> = bits(&[0.6, 0.8, 0.0]);
    pass.resolve_cluster(&mut db, &first_session, "speaker_0".to_string(), embedding.clone(), &Vec::new())
        .unwrap();
    pass.persist_segments(&mut db, &first_session, &one_segment("speaker_0")).unwrap();
    let original_speaker = db.list_speakers().unwrap()[0].id.clone();

    // A second session whose audio scores 0.9 against the lone stored
    // embedding resolves to the same speaker; no new row is minted.
    let second_session = db.insert_session("second").unwrap();
    let mut pass2 = ResolverPass::begin(&db).unwrap();
    assert_eq!(pass2.known.len(), 1);
    let scores = bits(&[0.9]);
    pass2
        .resolve_cluster(&mut db, &second_session, "speaker_0".to_string(), embedding.clone(), &scores)
        .unwrap();
    pass2.persist_segments(&mut db, &second_session, &one_segment("speaker_0")).unwrap();

    let speakers = db.list_speakers().unwrap();
    assert_eq!(speakers.len(), 1);
    assert_eq!(speakers[0].id, original_speaker);
    let embeddings = db.list_embeddings().unwrap();
    assert_eq!(embeddings.len(), 2);
    assert!(embeddings.iter().all(|e| e.speaker_id == original_speaker));
    let segments = db.list_segments(&second_session).unwrap();
    assert_eq!(segments[0].speaker_id.as_deref(), Some(original_speaker.as_str()));
}

#[test]
fn low_score_mints_a_second_speaker() {
    let mut db = Db::open(Crypto::new(None, None));
    let session = db.insert_session("s").unwrap();
    let mut pass = ResolverPass::begin(&db).unwrap();
    let va: Vec<u32> = bits(&[1.0, 0.0]);
    pass.resolve_cluster(&mut db, &session, "speaker_0".to_string(), va, &Vec::new()).unwrap();

    let vb: Vec<u32> = bits(&[0.0, 1.0]);
    let scores = bits(&[0.1]);
    pass.resolve_cluster(&mut db, &session, "speaker_1".to_string(), vb, &scores).unwrap();

    let speakers = db.list_speakers().unwrap();
    assert_eq!(speakers.len(), 2);
    assert_eq!(speakers[0].label.as_deref(), Some("Speaker 1"));
    assert_eq!(speakers[1].label.as_deref(), Some("Speaker 2"));
}

#[test]
fn matching_an_unlabeled_speaker_auto_labels_it() {
    let mut db = Db::open(Crypto::new(None, None));
    let session = db.insert_session("s").unwrap();
    let unlabeled = db.insert_speaker(None).unwrap();
    let embedding: Vec<u32> = bits(&[0.6, 0.8]);
    db.insert_embedding(&unlabeled, &session, &embedding).unwrap();
    db.insert_segment(&session, 0, 5, Some(&unlabeled), None, "old").unwrap();

    let second = db.insert_session("s2").unwrap();
    let mut pass = ResolverPass::begin(&db).unwrap();
    // One existing speaker: the counter starts at 2.
    assert_eq!(pass.next_label_index, 2);
    let scores = bits(&[0.95]);
    pass.resolve_cluster(&mut db, &second, "speaker_0".to_string(), embedding.clone(), &scores)
        .unwrap();

    let speakers = db.list_speakers().unwrap();
    assert_eq!(speakers.len(), 1);
    assert_eq!(speakers[0].label.as_deref(), Some("Speaker 2"));
    // The auto-label is denormalized onto the old segment too.
    let old_segments = db.list_segments(&session).unwrap();
    assert_eq!(old_segments[0].speaker_label.as_deref(), Some("Speaker 2"));
}

#[test]
fn unresolved_cluster_keeps_raw_label_without_identity() {
    let mut db = Db::open(Crypto::new(None, None));
    let session = db.insert_session("s").unwrap();
    let pass = ResolverPass::begin(&db).unwrap();
    // No cluster was resolved (no usable audio): the segment is persisted
    // with a cleared identity under its raw cluster label.
    pass.persist_segments(&mut db, &session, &one_segment("speaker_7")).unwrap();
    let segments = db.list_segments(&session).unwrap();
    assert_eq!(segments.len(), 1);
    assert_eq!(segments[0].speaker_id, None);
    assert_eq!(segments[0].speaker_label.as_deref(), Some("speaker_7"));
}

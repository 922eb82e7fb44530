use ssspam_bot::sound::{watch_action, Metadata, SoundFile, SoundStorage, WatchAction, WatchEventKind};

fn file(path: &str) -> SoundFile {
    SoundFile::new_unchecked(path.to_string())
}

fn storage_with(names: &[&str]) -> SoundStorage {
    let mut storage = SoundStorage::new("tests/sound".to_string());
    for n in names {
        storage.add(file(&format!("tests/sound/{n}.mp3")));
    }
    storage
}

#[test]
fn sound_test_sound_storage() {
    let mut storage = storage_with(&["sainou", "d", "dadeisan"]);
    assert_eq!(storage.len(), 3);
    assert_eq!(
        storage.get("sainou").unwrap().path,
        "tests/sound/sainou.mp3".to_string()
    );
    assert_eq!(storage.get("d").unwrap().path, "tests/sound/d.mp3".to_string());
    assert_eq!(
        storage.get("dadeisan").unwrap().path,
        "tests/sound/dadeisan.mp3".to_string()
    );

    storage.remove("d");
    storage.remove("dadeisan");
    assert_eq!(storage.len(), 1);
    assert_eq!(storage.get("d"), None);
    assert_eq!(storage.get("dadeisan"), None);
    assert_eq!(storage.get_random().unwrap(), storage.get("sainou").unwrap());

    storage.remove("sainou");
    assert_eq!(storage.get_random(), None);
}

#[test]
fn sound_test_calc_similarities() {
    let storage = storage_with(&["sainou", "d", "dadeisan"]);
    let sims = storage.calc_similarities("dadei");
    assert_eq!(sims[0].1, storage.get("dadeisan").unwrap());
    assert_eq!(sims[1].1, storage.get("d").unwrap());
    assert_eq!(sims[2].1, storage.get("sainou").unwrap());
}

#[test]
fn test_file_stem_naming() {
    assert_eq!(file("tests/sound/sainou.mp3").name, "sainou");
    assert_eq!(file("boing.mp3").name, "boing");
    assert_eq!(file("a/b/c.tar.mp3").name, "c.tar");
    assert_eq!(file("a/.hidden").name, ".hidden");
    assert_eq!(file("noext").name, "noext");
}

#[test]
fn test_lookup_is_case_insensitive() {
    let mut storage = SoundStorage::new(String::new());
    storage.add(file("dir/Boing.mp3"));
    // the stored key is the lowercased stem; lookups lowercase their query
    assert!(storage.get("boing").is_some());
    assert!(storage.get("BOING").is_some());
    assert!(storage.get("Boing").is_some());
    assert!(storage.get("boingg").is_none());
}

#[test]
fn test_add_replaces_same_key() {
    let mut storage = SoundStorage::new(String::new());
    assert!(storage.add(file("x/a.mp3")).is_none());
    let prev = storage.add(file("y/A.mp3"));
    assert_eq!(prev.unwrap().path, "x/a.mp3");
    assert_eq!(storage.len(), 1);
    assert_eq!(storage.get("a").unwrap().path, "y/A.mp3");
}

#[test]
fn test_suggestion_floor_of_ten() {
    // twelve names, none remotely similar to the query: fewer than ten clear
    // the confidence threshold, so exactly ten suggestions come back
    let names: Vec<String> = (0..12).map(|i| format!("sound{i:02}")).collect();
    let refs: Vec<&str> = names.iter().map(|s| s.as_str()).collect();
    let storage = storage_with(&refs);
    let suggestions = storage.similar_names("qqqqqqqqqqqqqqqq");
    assert_eq!(suggestions.len(), 10);
}

#[test]
fn test_confident_suggestions_come_first() {
    let storage = storage_with(&["boing", "boink", "zzz1", "zzz2"]);
    let sims = storage.calc_similarities("boing");
    assert_eq!(sims[0].1.name, "boing");
    // an exact match scores 1.0, above the 0.85 floor
    assert!(sims[0].0 > ssspam_bot::sound::SCORE_THRESHOLD_BITS);
}

#[test]
fn test_score_threshold_carrier() {
    assert_eq!(0.85f64.to_bits(), ssspam_bot::sound::SCORE_THRESHOLD_BITS);
    // bit patterns of scores in [0, 1] order as the scores do
    assert!(1.0f64.to_bits() > 0.85f64.to_bits());
    assert!(0.85f64.to_bits() > 0.2f64.to_bits());
    assert!(0.2f64.to_bits() > 0.0f64.to_bits());
}

#[test]
fn test_get_random_draws_an_entry() {
    let storage = storage_with(&["a1", "b2", "c3"]);
    for _ in 0..20 {
        let f = storage.get_random().unwrap();
        assert!(["a1", "b2", "c3"].contains(&f.name.as_str()));
    }
}

#[test]
fn test_metadata_majority_votes() {
    let frames = vec![(44100u32, 2u8), (44100, 2), (48000, 2), (44100, 1)];
    let meta = Metadata::compute(&frames, 800, 7, &vec![]);
    assert_eq!(meta.sample_rate_hz, 44100);
    assert_eq!(meta.channel_count, 2);
    assert_eq!(meta.duration_ms, 800);
    assert_eq!(meta.updated_at_ms, 7);
    assert!(meta.references.is_empty());
}

#[test]
fn test_metadata_references_cleaned() {
    let tags = vec![
        "  hello\0\0".to_string(),
        "".to_string(),
        "   ".to_string(),
        "hello".to_string(),
        "world".to_string(),
    ];
    let meta = Metadata::compute(&vec![(44100, 1)], 1, 1, &tags);
    assert_eq!(meta.references, vec!["hello".to_string(), "world".to_string()]);
}

#[test]
fn test_metadata_references_sorted() {
    let tags = vec![
        "zeta".to_string(),
        "alpha".to_string(),
        "zeta".to_string(),
        "mid".to_string(),
    ];
    let meta = Metadata::compute(&vec![(44100, 1)], 1, 1, &tags);
    assert_eq!(
        meta.references,
        vec!["alpha".to_string(), "mid".to_string(), "zeta".to_string()]
    );
}

#[test]
fn test_metadata_memoized_once() {
    let mut f = file("x/a.mp3");
    assert!(f.metadata.is_none());
    let meta = Metadata::compute(&vec![(44100, 1)], 800, 3, &vec![]);
    f.set_metadata(meta);
    assert_eq!(f.sample_rate_hz(), 44100);
    assert_eq!(f.channel_count(), 1);
    assert_eq!(f.duration(), 800);
    assert_eq!(f.updated_at(), 3);
}

#[test]
fn test_watch_actions() {
    assert_eq!(
        watch_action(WatchEventKind::Created, true),
        WatchAction::Add
    );
    assert_eq!(
        watch_action(WatchEventKind::Created, false),
        WatchAction::Ignore
    );
    assert_eq!(
        watch_action(WatchEventKind::DataModified, true),
        WatchAction::Add
    );
    assert_eq!(
        watch_action(WatchEventKind::Removed, true),
        WatchAction::Remove
    );
    assert_eq!(
        watch_action(WatchEventKind::RenamedFrom, false),
        WatchAction::Remove
    );
    assert_eq!(
        watch_action(WatchEventKind::RenamedTo, true),
        WatchAction::Add
    );
    assert_eq!(
        watch_action(WatchEventKind::RenamedBoth, true),
        WatchAction::RemoveThenAdd
    );
    assert_eq!(
        watch_action(WatchEventKind::RenamedBoth, false),
        WatchAction::Remove
    );
    assert_eq!(
        watch_action(WatchEventKind::RenamedOther, false),
        WatchAction::Remove
    );
    assert_eq!(
        watch_action(WatchEventKind::Other, true),
        WatchAction::Ignore
    );
}

#[test]
fn test_mp3_extension_check() {
    assert!(ssspam_bot::sound::has_mp3_extension_x("a/b.mp3"));
    assert!(!ssspam_bot::sound::has_mp3_extension_x("a/b.wav"));
    assert!(!ssspam_bot::sound::has_mp3_extension_x("mp3"));
    assert!(!ssspam_bot::sound::has_mp3_extension_x(""));
}

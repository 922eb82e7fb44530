use ssspam_bot::play::{
    DecodedSaySound, PlaybackSchedule, ResolveStep, SaySoundCache, VolumeManager, MAX_PLAYABLE_MS,
};
use ssspam_bot::sound::{Metadata, SoundFile, SoundStorage};
use ssspam_bot::sslang::{Action, SayCommand, SayCommands};

fn boing_file() -> SoundFile {
    let meta = Metadata::compute(&vec![(44100u32, 1u8)], 800, 0, &vec![]);
    SoundFile::new_checked("sounds/boing.mp3".to_string(), meta)
}

fn file_with_duration(ms: u32) -> SoundFile {
    let meta = Metadata::compute(&vec![(44100u32, 2u8)], ms, 0, &vec![]);
    SoundFile::new_checked("sounds/long.mp3".to_string(), meta)
}

fn cmd(name: &str) -> SayCommand {
    SayCommand {
        name: name.to_string(),
        ..Default::default()
    }
}

#[test]
fn test_playing_duration_formula() {
    // file 5000 ms, start 1000, speed 200, no duration cap, no stop:
    // floor((5000 - 1000) * 100 / 200) = 2000 ms
    let file = file_with_duration(5000);
    let command = SayCommand {
        start: 1000,
        speed: 200,
        ..cmd("long")
    };
    let decoded = DecodedSaySound::from_command_and_file(&command, &file, vec![]);
    assert_eq!(decoded.playing_duration_ms, 2000);
}

#[test]
fn test_duration_cap_and_stop_clamp() {
    let file = file_with_duration(5000);
    // the requested duration clamps the remainder
    let command = SayCommand {
        duration: Some(1500),
        ..cmd("long")
    };
    let decoded = DecodedSaySound::from_command_and_file(&command, &file, vec![]);
    assert_eq!(decoded.playing_duration_ms, 1500);
    // the stop flag truncates at the wait gap
    let command = SayCommand {
        wait: 700,
        stop: true,
        ..cmd("long")
    };
    let decoded = DecodedSaySound::from_command_and_file(&command, &file, vec![]);
    assert_eq!(decoded.playing_duration_ms, 700);
    // everything is capped at the encode limit
    let file = file_with_duration(4_000_000);
    let decoded = DecodedSaySound::from_command_and_file(&cmd("long"), &file, vec![]);
    assert_eq!(decoded.playing_duration_ms, MAX_PLAYABLE_MS);
}

#[test]
fn test_concat_blocking_equals_playing() {
    let file = file_with_duration(5000);
    let command = SayCommand {
        action: Action::Concat,
        start: 1000,
        speed: 200,
        wait: 12345,
        ..cmd("long")
    };
    let decoded = DecodedSaySound::from_command_and_file(&command, &file, vec![]);
    assert_eq!(decoded.blocking_duration_ms, decoded.playing_duration_ms);
}

#[test]
fn test_synthesize_blocks_for_wait() {
    let file = file_with_duration(5000);
    let command = SayCommand {
        wait: 250,
        ..cmd("long")
    };
    let decoded = DecodedSaySound::from_command_and_file(&command, &file, vec![]);
    assert_eq!(decoded.blocking_duration_ms, 250);
}

#[test]
fn test_cache_key_sensitivity() {
    let mut cache = SaySoundCache::new(100, 60_000);
    let slow = SayCommand {
        speed: 50,
        ..cmd("boing")
    };
    let fast = SayCommand {
        speed: 100,
        ..cmd("boing")
    };
    let decoded = DecodedSaySound {
        decoded_data: vec![1, 2, 3],
        blocking_duration_ms: 0,
        playing_duration_ms: 1600,
    };
    let shared = ssspam_bot::play::record_decoded(&mut cache, slow.clone(), decoded);
    assert_eq!(shared.playing_duration_ms, 1600);
    // the command that differs in speed resolves to no entry
    assert!(cache.get(&fast).is_none());
    // the identical command hits the entry that was inserted
    let hit = cache.get(&slow).unwrap();
    assert_eq!(hit.playing_duration_ms, 1600);
    assert_eq!(hit.decoded_data, vec![1, 2, 3]);
}

#[test]
fn test_cache_clean_discards_everything() {
    let mut cache = SaySoundCache::new(100, 60_000);
    let command = cmd("boing");
    let decoded = DecodedSaySound {
        decoded_data: vec![],
        blocking_duration_ms: 1,
        playing_duration_ms: 2,
    };
    ssspam_bot::play::record_decoded(&mut cache, command.clone(), decoded);
    assert!(cache.get(&command).is_some());
    cache.clean();
    assert!(cache.get(&command).is_none());
}

#[test]
fn test_resolve_step_paths() {
    let cache = SaySoundCache::new(100, 60_000);
    let mut storage = SoundStorage::new(String::new());
    storage.add(boing_file());
    // unknown name: silently dropped
    match ssspam_bot::play::resolve_step(&cache, &storage, &cmd("nosuch")) {
        ResolveStep::Skip => {}
        _ => panic!("an unknown name must be skipped"),
    }
    // known name, not yet cached: must be decoded
    match ssspam_bot::play::resolve_step(&cache, &storage, &cmd("boing")) {
        ResolveStep::Decode(f) => assert_eq!(f.name, "boing"),
        _ => panic!("a known name must be handed to the transcoder"),
    }
}

#[test]
fn test_volume_decay() {
    let mut vm = VolumeManager::new();
    let (v1, a1) = vm.get_volume_and_assignment();
    let (v2, a2) = vm.get_volume_and_assignment();
    let (v3, a3) = vm.get_volume_and_assignment();
    assert!(a1 > a2 && a2 > a3);
    assert!(v1 > v2 && v2 > v3);
    assert_eq!((a1, a2, a3), (300, 150, 75));
    assert_eq!((v1, v2, v3), (50_000, 25_000, 12_500));
}

#[test]
fn test_volume_return_and_reset() {
    let mut vm = VolumeManager::new();
    let (_, a1) = vm.get_volume_and_assignment();
    let (_, a2) = vm.get_volume_and_assignment();
    vm.return_assignment(a2);
    vm.return_assignment(a1);
    assert_eq!(vm.capacity(), 600);
    let _ = vm.get_volume_and_assignment();
    vm.reset();
    assert_eq!(vm.capacity(), 600);
}

#[test]
fn test_end_to_end_boing() {
    // catalog holds "boing": 800 ms, 44100 Hz, mono
    let mut storage = SoundStorage::new(String::new());
    storage.add(boing_file());
    let cache = SaySoundCache::new(100, 60_000);

    // parsing "boing @50 w0" yields one Synthesize command with speed 50
    let mut cmds = SayCommands::from_str("boing @50 w0").unwrap();
    cmds.sanitize();
    assert_eq!(cmds.len(), 1);
    let command = cmds.get(0).clone();
    assert_eq!(command.speed, 50);
    assert_eq!(command.wait, 0);
    assert_eq!(command.action, Action::Synthesize);

    // decoding yields playing 800 * (100/50) = 1600 ms, blocking 0 ms
    let file = match ssspam_bot::play::resolve_step(&cache, &storage, &command) {
        ResolveStep::Decode(f) => f,
        _ => panic!("boing must resolve through the catalog"),
    };
    let decoded = DecodedSaySound::from_command_and_file(&command, &file, vec![0u8; 16]);
    assert_eq!(decoded.playing_duration_ms, 1600);
    assert_eq!(decoded.blocking_duration_ms, 0);

    // the scheduler dispatches immediately and advances with zero delay
    let mut schedule = PlaybackSchedule::new();
    schedule.on_dispatch(decoded.playing_duration_ms, decoded.blocking_duration_ms);
    assert_eq!(schedule.elapsed_ms, 0);
    assert_eq!(schedule.estimated_total_ms, 1600);
    assert_eq!(schedule.overshoot_wait(MAX_PLAYABLE_MS), None);
}

#[test]
fn test_estimated_total_is_a_running_maximum() {
    let mut schedule = PlaybackSchedule::new();
    // a long tail followed by a short clip: the estimate keeps the maximum
    schedule.on_dispatch(10_000, 100);
    schedule.on_dispatch(50, 100);
    assert_eq!(schedule.elapsed_ms, 200);
    assert_eq!(schedule.estimated_total_ms, 10_000);
    // later items may push it further out
    schedule.on_dispatch(20_000, 0);
    assert_eq!(schedule.estimated_total_ms, 20_200);
}

#[test]
fn test_overshoot_wait() {
    let mut schedule = PlaybackSchedule::new();
    schedule.on_dispatch(170_000, 20_000);
    // the sequence finished but its tail runs past the deadline
    schedule.on_dispatch(175_000, 0);
    assert_eq!(schedule.elapsed_ms, 20_000);
    assert_eq!(schedule.estimated_total_ms, 195_000);
    assert_eq!(schedule.overshoot_wait(MAX_PLAYABLE_MS), Some(160_000));
}

#[test]
fn test_transcoder_args() {
    let file = boing_file();
    let command = SayCommand {
        speed: 50,
        ..cmd("boing")
    };
    let args = ssspam_bot::play::transcoder_args(&command, &file);
    assert_eq!(
        args,
        vec![
            "-ss".to_string(),
            "0ms".to_string(),
            "-t".to_string(),
            "0".to_string(),
            "-i".to_string(),
            "sounds/boing.mp3".to_string(),
            "-f".to_string(),
            "wav".to_string(),
            "-ac".to_string(),
            "1".to_string(),
            "-ar".to_string(),
            "48000".to_string(),
            "-acodec".to_string(),
            "pcm_f32le".to_string(),
            "-t".to_string(),
            "180".to_string(),
            "-af".to_string(),
            "asetrate=22050,atempo=1.0000,aresample=44100".to_string(),
            "-".to_string(),
        ]
    );
}

#[test]
fn test_transcoder_args_with_options() {
    let file = file_with_duration(5000);
    let command = SayCommand {
        pitch: 50,
        start: 1500,
        duration: Some(2000),
        audio_filter: Some("aecho=0.8:0.88:60:0.4".to_string()),
        ..cmd("long")
    };
    let args = ssspam_bot::play::transcoder_args(&command, &file);
    assert_eq!(args[1], "1500ms");
    assert_eq!(args[3], "2000ms");
    assert_eq!(args[9], "2");
    assert_eq!(
        args[17],
        "asetrate=22050,atempo=2.0000,aresample=44100,aecho=0.8:0.88:60:0.4"
    );
}

#[test]
fn test_transcoder_trim_from_stop() {
    let file = file_with_duration(5000);
    let command = SayCommand {
        wait: 400,
        stop: true,
        ..cmd("long")
    };
    let args = ssspam_bot::play::transcoder_args(&command, &file);
    assert_eq!(args[3], "400ms");
}

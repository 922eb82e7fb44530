use ssspam_bot::dispatch::{
    presence_change, prepare_commands, should_process, ChannelManager, ChannelUserManager,
    PresenceChange,
};
use ssspam_bot::sslang::Action;

#[test]
fn test_should_process_rules() {
    // right text channel, author in the bot's voice channel
    assert!(should_process(1, Some(1), Some(9), Some(9)));
    // wrong text channel
    assert!(!should_process(2, Some(1), Some(9), Some(9)));
    // no channels recorded for the guild
    assert!(!should_process(1, None, Some(9), Some(9)));
    // author in another voice channel
    assert!(!should_process(1, Some(1), Some(8), Some(9)));
    // author in no voice channel
    assert!(!should_process(1, Some(1), None, Some(9)));
}

#[test]
fn test_prepare_commands_parses_and_sanitizes() {
    let cmds = prepare_commands("a 10 20 p999").unwrap();
    assert_eq!(cmds.len(), 1);
    assert_eq!(cmds.get(0).speed, 20);
    assert_eq!(cmds.get(0).pitch, 200);
    assert_eq!(cmds.get(0).action, Action::Synthesize);
}

#[test]
fn test_prepare_commands_rejects_ordinary_text() {
    assert!(prepare_commands("This is a test").is_none());
    assert!(prepare_commands("テスト").is_none());
}

#[test]
fn test_channel_manager_bookkeeping() {
    let mut cm = ChannelManager::new();
    assert_eq!(cm.get_voice_channel_id(1), None);
    assert_eq!(cm.join(1, 100, 200), None);
    assert_eq!(cm.get_voice_channel_id(1), Some(100));
    assert_eq!(cm.get_text_channel_id(1), Some(200));
    // rejoining replaces and hands back the old pair
    assert_eq!(cm.join(1, 101, 201), Some((100, 200)));
    assert_eq!(cm.get_voice_channel_id(1), Some(101));
    assert_eq!(cm.leave(1), Some((101, 201)));
    assert_eq!(cm.get_voice_channel_id(1), None);
    assert_eq!(cm.leave(1), None);
}

#[test]
fn test_channel_user_manager() {
    let mut um = ChannelUserManager::new();
    assert!(um.get(5).is_empty());
    assert!(um.add(5, 10));
    assert!(!um.add(5, 10));
    assert!(um.add(5, 11));
    assert_eq!(um.get(5).len(), 2);
    assert_eq!(um.remove(5, 10), Some(10));
    assert_eq!(um.remove(5, 10), None);
    assert_eq!(um.get(5), vec![11]);
    // other guilds are untouched
    assert!(um.get(6).is_empty());
}

#[test]
fn test_presence_change() {
    let current = vec![1, 2, 3];
    let before = vec![2, 3, 4];
    assert_eq!(presence_change(&current, &before, 1), PresenceChange::Joined);
    assert_eq!(presence_change(&current, &before, 4), PresenceChange::Left);
    assert_eq!(presence_change(&current, &before, 2), PresenceChange::Unchanged);
    assert_eq!(presence_change(&current, &before, 99), PresenceChange::Unchanged);
}

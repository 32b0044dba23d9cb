use video_buzzer::decode::decode_player_name;
use video_buzzer::event::Event;
use video_buzzer::presence::Presence;
use video_buzzer::room::VideoRoom;
use video_buzzer::slots::TempSet;
use video_buzzer::video::{redirect_video_id, END_RANDOM_VIDEO, FIRST_RANDOM_VIDEO};

#[test]
fn slot_ids_grow_and_are_not_reused() {
    let mut set: TempSet<&str> = TempSet::new();
    assert!(set.is_empty());
    assert_eq!(set.add("a"), 0);
    assert_eq!(set.add("b"), 1);
    assert!(set.remove(1));
    assert!(!set.remove(1));
    assert!(!set.remove(5));
    assert_eq!(set.add("c"), 2);
    let mut all = set.iter();
    all.sort();
    assert_eq!(all, vec!["a", "c"]);
    assert!(set.remove(0));
    assert!(set.remove(2));
    assert!(set.is_empty());
    assert!(!set.is_exhausted());
}

#[test]
fn default_slot_table_is_empty() {
    let set: TempSet<u8> = TempSet::default();
    assert!(set.is_empty());
    assert!(set.iter().is_empty());
}

#[test]
fn presence_counts_connections() {
    let mut p = Presence::new();
    let n = "Ivy".to_string();
    assert!(p.is_empty());
    assert!(p.connect(&n));
    assert!(!p.connect(&n));
    assert_eq!(p.connections(&n), 2);
    p.disconnect(&n);
    assert_eq!(p.connections(&n), 1);
    assert_eq!(p.names(), vec![n.clone()]);
    p.disconnect(&n);
    assert!(p.is_empty());
    assert!(p.names().is_empty());
    assert!(p.connect(&n));
}

#[test]
fn room_empty_only_without_hosts_and_players() {
    let mut room: VideoRoom<u8> = VideoRoom::default();
    assert!(room.is_empty());
    let id = room.channels.add(1);
    assert!(!room.is_empty());
    room.channels.remove(id);
    assert!(room.is_empty());
    room.players.connect(&"Jo".to_string());
    assert!(!room.is_empty());
}

#[test]
fn event_wire_text() {
    assert_eq!(Event::PlayerJoined("Alice".to_string()).to_text(), "join Alice");
    assert_eq!(Event::PlayerBuzzed("Alice".to_string()).to_text(), "buzz Alice");
    assert_eq!(Event::PlayerBuzzed("Mary Ann".to_string()).to_text(), "buzz Mary Ann");
    assert_eq!(Event::PlayerJoined(String::new()).to_text(), "join ");
}

#[test]
fn decodes_percent_escapes() {
    assert_eq!(decode_player_name("Mary%20Ann"), Some("Mary Ann".to_string()));
    assert_eq!(decode_player_name("%41"), Some("A".to_string()));
    assert_eq!(decode_player_name("Alice"), Some("Alice".to_string()));
    assert_eq!(decode_player_name("%C3%A9"), Some("\u{e9}".to_string()));
    assert_eq!(decode_player_name("100%"), Some("100%".to_string()));
}

#[test]
fn rejects_names_that_are_not_utf8() {
    assert_eq!(decode_player_name("%FF"), None);
    assert_eq!(decode_player_name("a%C3"), None);
}

#[test]
fn random_video_id_in_range() {
    for _ in 0..100 {
        let id = redirect_video_id();
        assert!(FIRST_RANDOM_VIDEO <= id && id < END_RANDOM_VIDEO);
    }
    assert_eq!(FIRST_RANDOM_VIDEO, 1);
    assert_eq!(END_RANDOM_VIDEO, 1000000);
}

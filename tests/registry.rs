use video_buzzer::registry::Rooms;

fn name(s: &str) -> String {
    s.to_string()
}

#[test]
fn scenario_one_host_one_player_two_tabs() {
    let mut rooms: Rooms<u32> = Rooms::new();
    let alice = name("Alice");

    let (slot, names) = rooms.host_connect(42, 7).unwrap();
    assert_eq!(slot, 0);
    assert!(names.is_empty());

    assert_eq!(rooms.player_connect(42, &alice).unwrap(), vec![7]);
    assert_eq!(rooms.player_connect(42, &alice).unwrap(), Vec::<u32>::new());
    assert_eq!(rooms.connections(42, &alice), 2);

    assert_eq!(rooms.player_buzz(42), vec![7]);

    rooms.player_disconnect(42, &alice);
    assert_eq!(rooms.connections(42, &alice), 1);
    assert!(rooms.contains_room(42));

    rooms.player_disconnect(42, &alice);
    assert_eq!(rooms.connections(42, &alice), 0);
    assert!(rooms.contains_room(42));

    rooms.host_disconnect(42, slot);
    assert!(!rooms.contains_room(42));
}

#[test]
fn count_is_connects_less_disconnects() {
    let mut rooms: Rooms<u32> = Rooms::new();
    let bob = name("Bob");
    for _ in 0..3 {
        rooms.player_connect(5, &bob).unwrap();
    }
    rooms.player_disconnect(5, &bob);
    rooms.player_disconnect(5, &bob);
    assert_eq!(rooms.connections(5, &bob), 1);
    rooms.player_disconnect(5, &bob);
    assert_eq!(rooms.connections(5, &bob), 0);
    rooms.player_disconnect(5, &bob);
    assert_eq!(rooms.connections(5, &bob), 0);
}

#[test]
fn join_only_on_first_connection() {
    let mut rooms: Rooms<u32> = Rooms::new();
    let carol = name("Carol");
    rooms.host_connect(1, 10).unwrap();
    assert_eq!(rooms.player_connect(1, &carol).unwrap(), vec![10]);
    assert!(rooms.player_connect(1, &carol).unwrap().is_empty());
    rooms.player_disconnect(1, &carol);
    rooms.player_disconnect(1, &carol);
    assert_eq!(rooms.player_connect(1, &carol).unwrap(), vec![10]);
}

#[test]
fn room_held_only_while_in_use() {
    let mut rooms: Rooms<u32> = Rooms::new();
    let dave = name("Dave");
    assert!(!rooms.contains_room(3));
    rooms.player_connect(3, &dave).unwrap();
    assert!(rooms.contains_room(3));
    assert!(!rooms.contains_room(4));
    rooms.player_disconnect(3, &dave);
    assert!(!rooms.contains_room(3));

    let (slot, _) = rooms.host_connect(3, 1).unwrap();
    assert!(rooms.contains_room(3));
    rooms.host_disconnect(3, slot);
    assert!(!rooms.contains_room(3));
}

#[test]
fn disconnect_from_unknown_room_changes_nothing() {
    let mut rooms: Rooms<u32> = Rooms::new();
    rooms.player_disconnect(9, &name("Nobody"));
    rooms.host_disconnect(9, 0);
    assert!(!rooms.contains_room(9));
    assert!(rooms.player_buzz(9).is_empty());
}

#[test]
fn late_host_sees_every_present_player_once() {
    let mut rooms: Rooms<u32> = Rooms::new();
    for n in ["Zoe", "Ann", "Mia"] {
        rooms.player_connect(8, &name(n)).unwrap();
    }
    rooms.player_connect(8, &name("Ann")).unwrap();
    let (_, mut names) = rooms.host_connect(8, 1).unwrap();
    names.sort();
    assert_eq!(names, vec![name("Ann"), name("Mia"), name("Zoe")]);
}

#[test]
fn departed_player_not_in_snapshot() {
    let mut rooms: Rooms<u32> = Rooms::new();
    rooms.host_connect(2, 1).unwrap();
    rooms.player_connect(2, &name("Eve")).unwrap();
    rooms.player_connect(2, &name("Finn")).unwrap();
    rooms.player_disconnect(2, &name("Eve"));
    let (_, names) = rooms.host_connect(2, 2).unwrap();
    assert_eq!(names, vec![name("Finn")]);
}

#[test]
fn two_hosts_both_get_every_event() {
    let mut rooms: Rooms<u32> = Rooms::new();
    let (a, _) = rooms.host_connect(6, 100).unwrap();
    let (b, _) = rooms.host_connect(6, 200).unwrap();
    assert_eq!(a, 0);
    assert_eq!(b, 1);
    let mut joined = rooms.player_connect(6, &name("Gus")).unwrap();
    joined.sort();
    assert_eq!(joined, vec![100, 200]);
    let mut buzzed = rooms.player_buzz(6);
    buzzed.sort();
    assert_eq!(buzzed, vec![100, 200]);
}

#[test]
fn removing_one_host_keeps_the_other() {
    let mut rooms: Rooms<u32> = Rooms::new();
    let (a, _) = rooms.host_connect(6, 100).unwrap();
    let (b, _) = rooms.host_connect(6, 200).unwrap();
    rooms.host_disconnect(6, a);
    assert_eq!(rooms.player_buzz(6), vec![200]);
    rooms.host_disconnect(6, a);
    assert_eq!(rooms.player_buzz(6), vec![200]);
    let (c, _) = rooms.host_connect(6, 300).unwrap();
    assert_eq!(c, 2);
    rooms.host_disconnect(6, b);
    assert_eq!(rooms.player_buzz(6), vec![300]);
}

#[test]
fn rooms_are_independent() {
    let mut rooms: Rooms<u32> = Rooms::new();
    rooms.host_connect(1, 11).unwrap();
    rooms.host_connect(2, 22).unwrap();
    assert_eq!(rooms.player_connect(1, &name("Hal")).unwrap(), vec![11]);
    assert_eq!(rooms.player_connect(2, &name("Hal")).unwrap(), vec![22]);
    assert_eq!(rooms.player_buzz(2), vec![22]);
}

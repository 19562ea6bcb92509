use protohackers::chat::{valid_username, Outgoing, Room};

fn pairs(o: Vec<Outgoing>) -> Vec<(u64, String)> {
    o.into_iter().map(|x| (x.to, String::from_utf8(x.text).unwrap())).collect()
}

#[test]
fn usernames() {
    assert!(valid_username(&"alice42".chars().collect()));
    assert!(valid_username(&"Zoë".chars().collect()));
    assert!(!valid_username(&"".chars().collect()));
    assert!(!valid_username(&"bob smith".chars().collect()));
    assert!(!valid_username(&"eve!".chars().collect()));
}

#[test]
fn join_say_leave() {
    let mut room = Room::new();
    assert_eq!(pairs(room.join(b"alice".to_vec(), 1)), vec![(1, "* The room contains: \n".to_string())]);
    assert_eq!(
        pairs(room.join(b"bob".to_vec(), 2)),
        vec![(2, "* The room contains: alice\n".to_string()), (1, "* bob has joined the room\n".to_string())]
    );
    assert_eq!(
        pairs(room.join(b"carol".to_vec(), 3)),
        vec![
            (3, "* The room contains: alice, bob\n".to_string()),
            (1, "* carol has joined the room\n".to_string()),
            (2, "* carol has joined the room\n".to_string())
        ]
    );
    assert_eq!(
        pairs(room.say(&b"bob".to_vec(), &b"hi all".to_vec())),
        vec![(1, "[bob] hi all\n".to_string()), (3, "[bob] hi all\n".to_string())]
    );
    assert_eq!(
        pairs(room.leave(&b"alice".to_vec())),
        vec![(2, "* alice has left the room\n".to_string()), (3, "* alice has left the room\n".to_string())]
    );
    assert!(room.leave(&b"alice".to_vec()).is_empty());
    assert_eq!(room.members.len(), 2);
}

#[test]
fn rejoining_name_takes_the_new_connection() {
    let mut room = Room::new();
    room.join(b"a".to_vec(), 1);
    room.join(b"b".to_vec(), 2);
    assert_eq!(
        pairs(room.join(b"a".to_vec(), 5)),
        vec![(5, "* The room contains: a, b\n".to_string()), (2, "* a has joined the room\n".to_string())]
    );
    assert_eq!(room.members, vec![(b"a".to_vec(), 5), (b"b".to_vec(), 2)]);
}

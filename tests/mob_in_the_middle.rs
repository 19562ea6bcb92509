use protohackers::proxy::{forward, Forward};

fn sent(buf: &[u8]) -> Option<String> {
    match forward(&buf.to_vec()) {
        Forward::Wait => None,
        Forward::Send(out) => Some(String::from_utf8(out).unwrap()),
    }
}

#[test]
fn waits_for_a_whole_line() {
    assert_eq!(sent(b""), None);
    assert_eq!(sent(b"Hi, send to 7F1u3wSD5RbOHQmupo9nx4TnhQ"), None);
}

#[test]
fn replaces_coin_addresses() {
    assert_eq!(
        sent(b"Please send to 7F1u3wSD5RbOHQmupo9nx4TnhQ\n").unwrap(),
        "Please send to 7YWHMfk9JZe0LM0g1ZauHuiSxhI\n"
    );
    assert_eq!(
        sent(b"7iKDZEwPZSqIvDnHvVN2r0hUWXD5rHX thanks\n").unwrap(),
        "7YWHMfk9JZe0LM0g1ZauHuiSxhI thanks\n"
    );
}

#[test]
fn leaves_other_text_alone() {
    let long = format!("7{}\n", "a".repeat(35));
    assert_eq!(sent(long.as_bytes()).unwrap(), long);
    assert_eq!(sent(b"hello 8F1u3wSD5RbOHQmupo9nx4TnhQ\n").unwrap(), "hello 8F1u3wSD5RbOHQmupo9nx4TnhQ\n");
    assert_eq!(sent(b"short 7abc\n").unwrap(), "short 7abc\n");
}

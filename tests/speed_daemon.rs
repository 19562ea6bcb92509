use protohackers::codec::{decode_frame, ClientFrame, DecodeError};
use protohackers::connection::{heartbeat_frame, heartbeat_period_ms, Action, Client, Role};
use protohackers::message::{encode_error, Camera, DateKey, Message, Ticket, Timestamp};
use protohackers::ticketmaster::{speed_between, ticket_between, Delivery, Registration, Ticketmaster};

fn sighting(road: u16, mile: u16, limit: u16, t: u32) -> Timestamp {
    Timestamp::new(&Camera { road, mile, limit }, t)
}

fn fields(t: &Ticket) -> (Vec<u8>, u16, u16, u32, u16, u32, u16) {
    (t.plate.clone(), t.road, t.mile1, t.timestamp1, t.mile2, t.timestamp2, t.speed)
}

#[test]
fn timestamp_takes_the_camera() {
    let ts = sighting(7, 8, 9, 123);
    assert_eq!(ts, Timestamp { road: 7, mile: 8, limit: 9, timestamp: 123, keep: true });
}

#[test]
fn ticket_encodes_big_endian() {
    let t = Ticket::new(b"UN1X".to_vec(), sighting(66, 100, 60, 123456), sighting(66, 110, 60, 123816), 10000);
    assert!(t.pending);
    assert_eq!(
        t.encode(),
        vec![
            0x21, 0x04, 0x55, 0x4e, 0x31, 0x58, 0x00, 0x42, 0x00, 0x64, 0x00, 0x01, 0xe2, 0x40, 0x00, 0x6e, 0x00,
            0x01, 0xe3, 0xa8, 0x27, 0x10
        ]
    );
}

#[test]
fn error_frame_bytes() {
    match encode_error() {
        Message::Encoded(b) => assert_eq!(b, vec![0x10, 6, b'E', b'r', b'r', b'o', b'r', b'!']),
        Message::Terminate => panic!("expected an error frame"),
    }
}

#[test]
fn date_keys_split_at_utc_midnight() {
    let t = Ticket::new(b"AB".to_vec(), sighting(1, 0, 60, 86399), sighting(1, 1, 60, 86400), 100);
    let keys = t.date_keys();
    assert_eq!(keys[0].day, 719163);
    assert_eq!(keys[1].day, 719164);
    assert_eq!(keys[0].plate, b"AB".to_vec());
}

#[test]
fn already_sent_and_sent() {
    let mut t = Ticket::new(b"AB".to_vec(), sighting(1, 0, 60, 10), sighting(1, 1, 60, 86500), 100);
    let mut sent: Vec<DateKey> = vec![DateKey { plate: b"XY".to_vec(), day: 719163 }];
    assert!(!t.already_sent(&sent));
    t.sent(&mut sent);
    assert!(!t.pending);
    assert!(t.already_sent(&sent));
    let other_day = Ticket::new(b"AB".to_vec(), sighting(1, 0, 60, 200000), sighting(1, 1, 60, 200030), 100);
    assert!(!other_day.already_sent(&sent));
    let same_day = Ticket::new(b"AB".to_vec(), sighting(1, 0, 60, 170000), sighting(1, 1, 60, 172000), 100);
    assert!(same_day.already_sent(&sent));
}

#[test]
fn speed_is_rounded_and_held_in_sixteen_bits() {
    assert_eq!(speed_between(&sighting(1, 0, 60, 0), &sighting(1, 1, 60, 30)), 12000);
    assert_eq!(speed_between(&sighting(1, 0, 60, 0), &sighting(1, 1, 60, 7)), 51429);
    assert_eq!(speed_between(&sighting(1, 5, 60, 0), &sighting(1, 4, 60, 3600)), 100);
    assert_eq!(speed_between(&sighting(1, 0, 60, 0), &sighting(1, 1000, 60, 1)), 65535);
}

#[test]
fn ticket_legs_follow_time() {
    let later = sighting(3, 10, 50, 400);
    let earlier = sighting(3, 0, 50, 100);
    let t = ticket_between(&b"P".to_vec(), &later, &earlier).unwrap();
    assert_eq!(fields(&t), (b"P".to_vec(), 3, 0, 100, 10, 400, 12000));
    assert!(ticket_between(&b"P".to_vec(), &later, &later).is_none());
    let slow = sighting(3, 11, 50, 100000);
    assert!(ticket_between(&b"P".to_vec(), &later, &slow).is_none());
}

fn copy(t: &Ticket) -> Ticket {
    Ticket::new(
        t.plate.clone(),
        Timestamp { road: t.road, mile: t.mile1, limit: 0, timestamp: t.timestamp1, keep: true },
        Timestamp { road: t.road, mile: t.mile2, limit: 0, timestamp: t.timestamp2, keep: true },
        t.speed,
    )
}

/// Processes an event and confirms every ticket handed out, as a driver does
/// when each send succeeds.
fn run(tm: &mut Ticketmaster, ev: Registration) -> Vec<Delivery> {
    let out = tm.process(ev);
    for d in &out {
        assert!(tm.confirm(copy(&d.ticket)));
    }
    out
}

#[test]
fn failed_send_leaves_the_day_open() {
    let mut tm = Ticketmaster::new();
    run(&mut tm, Registration::NewDispatcher(vec![1], 1));
    tm.process(Registration::NewTimestamp(b"Q".to_vec(), sighting(1, 0, 60, 1000)));
    let lost = tm.process(Registration::NewTimestamp(b"Q".to_vec(), sighting(1, 1, 60, 1030)));
    assert_eq!(lost.len(), 1);
    assert!(tm.sent.is_empty());
    assert!(tm.outbox.is_empty());
    run(&mut tm, Registration::NewTimestamp(b"Q".to_vec(), sighting(1, 5, 60, 2000)));
    let out = run(&mut tm, Registration::NewTimestamp(b"Q".to_vec(), sighting(1, 6, 60, 2030)));
    assert_eq!(out.len(), 1);
    assert_eq!(fields(&out[0].ticket), (b"Q".to_vec(), 1, 5, 2000, 6, 2030, 12000));
    assert_eq!(tm.sent.len(), 1);
    assert!(!tm.confirm(copy(&lost[0].ticket)));
}

#[test]
fn sent_adds_each_missing_key_once() {
    let mut t = Ticket::new(b"AB".to_vec(), sighting(1, 0, 60, 10), sighting(1, 1, 60, 40), 100);
    let mut sent: Vec<DateKey> = Vec::new();
    t.sent(&mut sent);
    assert_eq!(sent.len(), 1);
    t.sent(&mut sent);
    assert_eq!(sent.len(), 1);
    let mut u = Ticket::new(b"AB".to_vec(), sighting(1, 0, 60, 50), sighting(1, 1, 60, 86450), 100);
    u.sent(&mut sent);
    assert_eq!(sent.len(), 2);
    assert_eq!(sent[1].day, 719164);
}

#[test]
fn ticket_waits_for_a_dispatcher() {
    let mut tm = Ticketmaster::new();
    assert!(run(&mut tm, Registration::NewTimestamp(b"ABC".to_vec(), sighting(1, 0, 60, 0))).is_empty());
    assert!(run(&mut tm, Registration::NewTimestamp(b"ABC".to_vec(), sighting(1, 1, 60, 30))).is_empty());
    assert_eq!(tm.outbox.len(), 1);
    assert!(run(&mut tm, Registration::NewDispatcher(vec![2], 7)).is_empty());
    let out = run(&mut tm, Registration::NewDispatcher(vec![5, 1], 9));
    assert_eq!(out.len(), 1);
    assert_eq!(out[0].dispatcher, 9);
    assert_eq!(fields(&out[0].ticket), (b"ABC".to_vec(), 1, 0, 0, 1, 30, 12000));
    assert_eq!(
        out[0].ticket.encode(),
        vec![0x21, 3, b'A', b'B', b'C', 0, 1, 0, 0, 0, 0, 0, 0, 0, 1, 0, 0, 0, 30, 0x2e, 0xe0]
    );
    assert!(tm.outbox.is_empty());
    assert!(run(&mut tm, Registration::NewDispatcher(vec![1], 10)).is_empty());
}

#[test]
fn ticket_goes_straight_to_a_registered_dispatcher() {
    let mut tm = Ticketmaster::new();
    assert!(run(&mut tm, Registration::NewDispatcher(vec![4], 3)).is_empty());
    assert!(run(&mut tm, Registration::NewTimestamp(b"Z".to_vec(), sighting(4, 10, 100, 500))).is_empty());
    let out = run(&mut tm, Registration::NewTimestamp(b"Z".to_vec(), sighting(4, 0, 100, 200)));
    assert_eq!(out.len(), 1);
    assert_eq!(out[0].dispatcher, 3);
    assert_eq!(fields(&out[0].ticket), (b"Z".to_vec(), 4, 0, 200, 10, 500, 12000));
}

#[test]
fn same_sightings_twice_give_one_ticket() {
    let mut tm = Ticketmaster::new();
    run(&mut tm, Registration::NewDispatcher(vec![1], 1));
    let mut delivered = 0;
    for _ in 0..2 {
        delivered += run(&mut tm, Registration::NewTimestamp(b"ABC".to_vec(), sighting(1, 0, 60, 0))).len();
        delivered += run(&mut tm, Registration::NewTimestamp(b"ABC".to_vec(), sighting(1, 1, 60, 30))).len();
    }
    assert_eq!(delivered, 1);
}

#[test]
fn one_ticket_per_plate_per_day() {
    let mut tm = Ticketmaster::new();
    run(&mut tm, Registration::NewDispatcher(vec![1, 2], 1));
    run(&mut tm, Registration::NewTimestamp(b"Q".to_vec(), sighting(1, 0, 60, 1000)));
    assert_eq!(run(&mut tm, Registration::NewTimestamp(b"Q".to_vec(), sighting(1, 1, 60, 1030))).len(), 1);
    run(&mut tm, Registration::NewTimestamp(b"Q".to_vec(), sighting(2, 0, 60, 5000)));
    assert!(run(&mut tm, Registration::NewTimestamp(b"Q".to_vec(), sighting(2, 1, 60, 5030))).is_empty());
    run(&mut tm, Registration::NewTimestamp(b"Q".to_vec(), sighting(2, 0, 60, 90000)));
    assert_eq!(run(&mut tm, Registration::NewTimestamp(b"Q".to_vec(), sighting(2, 1, 60, 90030))).len(), 1);
    run(&mut tm, Registration::NewTimestamp(b"R".to_vec(), sighting(2, 0, 60, 5000)));
    assert_eq!(run(&mut tm, Registration::NewTimestamp(b"R".to_vec(), sighting(2, 1, 60, 5030))).len(), 1);
}

#[test]
fn later_dispatcher_replaces_earlier() {
    let mut tm = Ticketmaster::new();
    run(&mut tm, Registration::NewDispatcher(vec![1], 1));
    run(&mut tm, Registration::NewDispatcher(vec![1], 2));
    run(&mut tm, Registration::NewTimestamp(b"A".to_vec(), sighting(1, 0, 60, 0)));
    let out = run(&mut tm, Registration::NewTimestamp(b"A".to_vec(), sighting(1, 1, 60, 30)));
    assert_eq!(out.len(), 1);
    assert_eq!(out[0].dispatcher, 2);
}

#[test]
fn held_tickets_of_one_day_are_delivered_once() {
    let mut tm = Ticketmaster::new();
    run(&mut tm, Registration::NewTimestamp(b"A".to_vec(), sighting(1, 0, 60, 0)));
    run(&mut tm, Registration::NewTimestamp(b"A".to_vec(), sighting(1, 1, 60, 30)));
    run(&mut tm, Registration::NewTimestamp(b"A".to_vec(), sighting(1, 2, 60, 60)));
    assert_eq!(tm.outbox.len(), 3);
    let out = run(&mut tm, Registration::NewDispatcher(vec![1], 4));
    assert_eq!(out.len(), 1);
    assert_eq!(fields(&out[0].ticket), (b"A".to_vec(), 1, 0, 0, 1, 30, 12000));
    assert!(tm.outbox.is_empty());
}

#[test]
fn heartbeat_periods() {
    assert_eq!(heartbeat_period_ms(0), None);
    assert_eq!(heartbeat_period_ms(25), Some(2500));
    assert_eq!(heartbeat_period_ms(u32::MAX), Some(u32::MAX as u64 * 100));
    assert_eq!(heartbeat_frame(), vec![0x41]);
}

#[test]
fn decode_each_frame() {
    match decode_frame(&[0x80, 0, 66, 0, 100, 0, 60, 0xff]) {
        Ok((ClientFrame::Camera(c), 7)) => assert_eq!(c, Camera { road: 66, mile: 100, limit: 60 }),
        other => panic!("{other:?}"),
    }
    match decode_frame(&[0x81, 3, 0, 66, 1, 0x2c, 0, 1]) {
        Ok((ClientFrame::Dispatcher(roads), 8)) => assert_eq!(roads, vec![66, 300, 1]),
        other => panic!("{other:?}"),
    }
    match decode_frame(&[0x20, 4, b'U', b'N', b'1', b'X', 0, 0, 3, 0xe8]) {
        Ok((ClientFrame::Plate(p, t), 10)) => {
            assert_eq!(p, b"UN1X".to_vec());
            assert_eq!(t, 1000);
        },
        other => panic!("{other:?}"),
    }
    match decode_frame(&[0x40, 0, 0, 0, 25]) {
        Ok((ClientFrame::WantHeartbeat(25), 5)) => {},
        other => panic!("{other:?}"),
    }
}

#[test]
fn decode_errors() {
    assert_eq!(decode_frame(&[]).unwrap_err(), DecodeError::Incomplete);
    assert_eq!(decode_frame(&[0x80, 0, 66, 0]).unwrap_err(), DecodeError::Incomplete);
    assert_eq!(decode_frame(&[0x81, 2, 0, 66]).unwrap_err(), DecodeError::Incomplete);
    assert_eq!(decode_frame(&[0x20, 4, b'U', b'N', b'1', b'X', 0, 0]).unwrap_err(), DecodeError::Incomplete);
    assert_eq!(decode_frame(&[0x41]).unwrap_err(), DecodeError::UnknownTag(0x41));
    assert_eq!(decode_frame(&[0x21, 0, 0]).unwrap_err(), DecodeError::UnknownTag(0x21));
}

#[test]
fn camera_cannot_become_dispatcher() {
    let mut c = Client::new(5);
    let (a, n) = c.on_input(&[0x80, 0, 1, 0, 2, 0, 60], false);
    assert!(matches!(a, Action::Nothing));
    assert_eq!(n, 7);
    assert_eq!(c.role, Role::Camera(Camera { road: 1, mile: 2, limit: 60 }));
    let (a, _) = c.on_input(&[0x81, 1, 0, 1], false);
    assert!(matches!(a, Action::Fail));
    assert_eq!(c.role, Role::Camera(Camera { road: 1, mile: 2, limit: 60 }));
}

#[test]
fn camera_forwards_plates() {
    let mut c = Client::new(5);
    c.on_input(&[0x80, 0, 1, 0, 2, 0, 60], false);
    let (a, n) = c.on_input(&[0x20, 2, b'A', b'B', 0, 0, 0, 9], false);
    assert_eq!(n, 8);
    match a {
        Action::Forward(Registration::NewTimestamp(p, ts)) => {
            assert_eq!(p, b"AB".to_vec());
            assert_eq!(ts, Timestamp { road: 1, mile: 2, limit: 60, timestamp: 9, keep: true });
        },
        other => panic!("{other:?}"),
    }
}

#[test]
fn dispatcher_registers_and_accepts_only_heartbeats() {
    let mut c = Client::new(8);
    match c.on_input(&[0x81, 2, 0, 1, 0, 2], false) {
        (Action::Forward(Registration::NewDispatcher(roads, id)), 6) => {
            assert_eq!(roads, vec![1, 2]);
            assert_eq!(id, 8);
        },
        other => panic!("{other:?}"),
    }
    assert!(matches!(c.on_input(&[0x40, 0, 0, 0, 10], false), (Action::StartHeartbeat(10), 5)));
    assert!(matches!(c.on_input(&[0x40, 0, 0, 0, 10], false).0, Action::Fail));
    let mut d = Client::new(9);
    d.on_input(&[0x81, 1, 0, 1], false);
    assert!(matches!(d.on_input(&[0x20, 1, b'A', 0, 0, 0, 1], false).0, Action::Fail));
    assert!(matches!(d.on_input(&[0x80, 0, 1, 0, 2, 0, 60], false).0, Action::Fail));
}

#[test]
fn heartbeat_zero_starts_nothing_but_counts() {
    let mut c = Client::new(1);
    assert!(matches!(c.on_input(&[0x40, 0, 0, 0, 0], false), (Action::Nothing, 5)));
    assert!(c.has_heartbeat);
    assert_eq!(c.role, Role::Undetermined);
    assert!(matches!(c.on_input(&[0x40, 0, 0, 0, 0], false).0, Action::Fail));
}

#[test]
fn end_of_stream_and_bad_tags() {
    let mut c = Client::new(1);
    assert!(matches!(c.on_input(&[], true), (Action::Close, 0)));
    assert!(matches!(c.on_input(&[0x80, 0], true), (Action::Fail, 0)));
    assert!(matches!(c.on_input(&[0x80, 0], false), (Action::NeedMore, 0)));
    assert!(matches!(c.on_input(&[0x99], false), (Action::Fail, 0)));
    assert!(matches!(c.on_input(&[0x20, 1, b'A', 0, 0, 0, 1], false).0, Action::Fail));
    assert_eq!(c.role, Role::Undetermined);
}

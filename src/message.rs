use vstd::prelude::*;

use chrono::Datelike;

verus! {

/// Tag of an error frame (server to client).
pub const ERROR: u8 = 0x10;

/// Tag of a plate report (camera to server).
pub const PLATE: u8 = 0x20;

/// Tag of a ticket frame (server to dispatcher).
pub const TICKET: u8 = 0x21;

/// Tag of a heartbeat request (client to server).
pub const WANTHEARTBEAT: u8 = 0x40;

/// Tag of a heartbeat frame (server to client).
pub const HEARTBEAT: u8 = 0x41;

/// Tag of a camera declaration (client to server).
pub const CAMERA: u8 = 0x80;

/// Tag of a dispatcher declaration (client to server).
pub const DISPATCHER: u8 = 0x81;

/// Number of seconds in a UTC day.
pub const SECONDS_PER_DAY: u32 = 86400;

/// Day number, counted from 1 January of year 1 as day 1, of 1 January 1970.
pub const EPOCH_DAY_FROM_CE: i32 = 719163;

/// What a connection's writer is asked to do.
#[derive(Debug)]
pub enum Message {
    /// Write these bytes to the socket.
    Encoded(Vec<u8>),
    /// Flush and close the writing side.
    Terminate,
}

/// A camera: a position on a road, and that road's speed limit (miles per hour).
#[derive(Debug, Clone, Copy, PartialEq, Eq, Structural)]
pub struct Camera {
    pub road: u16,
    pub mile: u16,
    pub limit: u16,
}

/// One sighting of a plate by a camera.
#[derive(Debug, Clone, Copy, PartialEq, Eq, Structural)]
pub struct Timestamp {
    pub road: u16,
    pub mile: u16,
    pub limit: u16,
    pub timestamp: u32,
    pub keep: bool,
}

impl Timestamp {
    /// The sighting, at time `timestamp`, of a plate by the camera `cam`.
    pub fn new(cam: &Camera, timestamp: u32) -> (r: Self)
        ensures
            r.road == cam.road,
            r.mile == cam.mile,
            r.limit == cam.limit,
            r.timestamp == timestamp,
            r.keep,
    {
        Timestamp { road: cam.road, mile: cam.mile, limit: cam.limit, timestamp, keep: true }
    }
}

/// A speeding ticket: a plate seen at two points of one road, and the average
/// speed between them in hundredths of a mile per hour.
#[derive(Debug)]
pub struct Ticket {
    pub plate: Vec<u8>,
    pub road: u16,
    pub mile1: u16,
    pub timestamp1: u32,
    pub mile2: u16,
    pub timestamp2: u32,
    pub speed: u16,
    pub pending: bool,
}

/// A plate and a UTC day (counted from 1 January of year 1 as day 1).
#[derive(Debug)]
pub struct DateKey {
    pub plate: Vec<u8>,
    pub day: i32,
}

/// The UTC day of a timestamp, counted from 1 January of year 1 as day 1.
pub open spec fn day_of(ts: u32) -> int {
    ts as int / SECONDS_PER_DAY as int + EPOCH_DAY_FROM_CE as int
}

/// Relies on chrono's `DateTime::from_timestamp`, which gives `Some` for every
/// timestamp that fits in 32 bits and puts it on day
/// `secs.div_euclid(86_400) + 719_163`, and on `Datelike::num_days_from_ce`,
/// which hands that day number back.
#[verifier::external_body]
fn utc_day(ts: u32) -> (r: i32)
    ensures
        r == day_of(ts),
{
    chrono::DateTime::from_timestamp(ts as i64, 0).unwrap().date_naive().num_days_from_ce()
}

/// The two big-endian bytes of `x`.
pub open spec fn be16(x: u16) -> Seq<u8> {
    seq![(x / 256) as u8, (x % 256) as u8]
}

/// The four big-endian bytes of `x`.
pub open spec fn be32(x: u32) -> Seq<u8> {
    seq![(x / 0x100_0000) as u8, ((x / 0x1_0000) % 256) as u8, ((x / 256) % 256) as u8, (x % 256) as u8]
}

/// The wire form of a ticket.
pub open spec fn ticket_frame(t: TicketView) -> Seq<u8> {
    seq![TICKET, t.plate.len() as u8] + t.plate + be16(t.road) + be16(t.mile1) + be32(t.timestamp1)
        + be16(t.mile2) + be32(t.timestamp2) + be16(t.speed)
}

/// The wire form of the error frame: tag, length, then the text `Error!`.
pub open spec fn error_frame() -> Seq<u8> {
    seq![ERROR, 6u8, 69u8, 114u8, 114u8, 111u8, 114u8, 33u8]
}

/// What a ticket says, as plain values.
pub struct TicketView {
    pub plate: Seq<u8>,
    pub road: u16,
    pub mile1: u16,
    pub timestamp1: u32,
    pub mile2: u16,
    pub timestamp2: u32,
    pub speed: u16,
}

impl View for Ticket {
    type V = TicketView;

    open spec fn view(&self) -> TicketView {
        TicketView {
            plate: self.plate@,
            road: self.road,
            mile1: self.mile1,
            timestamp1: self.timestamp1,
            mile2: self.mile2,
            timestamp2: self.timestamp2,
            speed: self.speed,
        }
    }
}

/// The (plate, day) pairs that `sent` records.
pub open spec fn key_set(sent: Seq<DateKey>) -> Set<(Seq<u8>, int)> {
    Set::new(
        |k: (Seq<u8>, int)|
            exists|i: int| 0 <= i < sent.len() && #[trigger] sent[i].plate@ == k.0 && sent[i].day == k.1,
    )
}

/// The date keys of a ticket: its plate with the day of each sighting.
pub open spec fn keys_of(t: TicketView) -> Set<(Seq<u8>, int)> {
    set![(t.plate, day_of(t.timestamp1)), (t.plate, day_of(t.timestamp2))]
}

/// The (plate, day) pairs of `sent`, in order.
pub open spec fn key_seq(sent: Seq<DateKey>) -> Seq<(Seq<u8>, int)> {
    sent.map_values(|k: DateKey| (k.plate@, k.day as int))
}

/// Whether no pair stands twice in `s`.
pub open spec fn no_dups(s: Seq<(Seq<u8>, int)>) -> bool {
    forall|i: int, j: int| 0 <= i < j < s.len() ==> s[i] != s[j]
}

/// The date keys of `t` that `sent` lacks, in the order of its legs, each once.
pub open spec fn new_keys(sent: Seq<DateKey>, t: TicketView) -> Seq<(Seq<u8>, int)> {
    let k1 = (t.plate, day_of(t.timestamp1));
    let k2 = (t.plate, day_of(t.timestamp2));
    (if key_set(sent).contains(k1) {
        seq![]
    } else {
        seq![k1]
    }) + (if key_set(sent).contains(k2) || k2 == k1 {
        seq![]
    } else {
        seq![k2]
    })
}

/// Whether one of the date keys of `t` is among `keys`.
pub open spec fn covered(keys: Set<(Seq<u8>, int)>, t: TicketView) -> bool {
    keys.contains((t.plate, day_of(t.timestamp1))) || keys.contains((t.plate, day_of(t.timestamp2)))
}

fn push_be16(out: &mut Vec<u8>, x: u16)
    ensures
        final(out)@ == old(out)@ + be16(x),
{
    out.push((x / 256) as u8);
    out.push((x % 256) as u8);
    assert(final(out)@ =~= old(out)@ + be16(x));
}

fn push_be32(out: &mut Vec<u8>, x: u32)
    ensures
        final(out)@ == old(out)@ + be32(x),
{
    out.push((x / 0x100_0000) as u8);
    out.push(((x / 0x1_0000) % 256) as u8);
    out.push(((x / 256) % 256) as u8);
    out.push((x % 256) as u8);
    assert(final(out)@ =~= old(out)@ + be32(x));
}

/// Whether two byte strings are equal.
pub fn same_bytes(a: &Vec<u8>, b: &Vec<u8>) -> (r: bool)
    ensures
        r == (a@ == b@),
{
    if a.len() != b.len() {
        return false;
    }
    let mut i: usize = 0;
    while i < a.len()
        invariant
            a@.len() == b@.len(),
            i <= a@.len(),
            forall|j: int| 0 <= j < i ==> a@[j] == b@[j],
        decreases a@.len() - i,
    {
        if a[i] != b[i] {
            return false;
        }
        i = i + 1;
    }
    assert(a@ =~= b@);
    true
}

/// Whether `sent` holds the key of `plate` on `day`.
fn holds_key(sent: &Vec<DateKey>, plate: &Vec<u8>, day: i32) -> (r: bool)
    ensures
        r == key_set(sent@).contains((plate@, day as int)),
{
    let mut i: usize = 0;
    while i < sent.len()
        invariant
            i <= sent@.len(),
            forall|j: int| 0 <= j < i ==> !(#[trigger] sent@[j].plate@ == plate@ && sent@[j].day == day),
        decreases sent@.len() - i,
    {
        if sent[i].day == day && same_bytes(&sent[i].plate, plate) {
            return true;
        }
        i = i + 1;
    }
    false
}

impl Ticket {
    /// The ticket for `plate` between the sightings `ts1` and `ts2`, pending delivery.
    pub fn new(plate: Vec<u8>, ts1: Timestamp, ts2: Timestamp, speed: u16) -> (r: Self)
        ensures
            r.plate@ == plate@,
            r.road == ts1.road,
            r.mile1 == ts1.mile,
            r.timestamp1 == ts1.timestamp,
            r.mile2 == ts2.mile,
            r.timestamp2 == ts2.timestamp,
            r.speed == speed,
            r.pending,
    {
        Ticket {
            plate,
            road: ts1.road,
            mile1: ts1.mile,
            timestamp1: ts1.timestamp,
            mile2: ts2.mile,
            timestamp2: ts2.timestamp,
            speed,
            pending: true,
        }
    }

    /// The plate with the UTC day of each of the two sightings.
    pub fn date_keys(&self) -> (r: [DateKey; 2])
        ensures
            r@[0].plate@ == self.plate@,
            r@[0].day == day_of(self.timestamp1),
            r@[1].plate@ == self.plate@,
            r@[1].day == day_of(self.timestamp2),
    {
        let k1 = DateKey { plate: self.plate.clone(), day: utc_day(self.timestamp1) };
        let k2 = DateKey { plate: self.plate.clone(), day: utc_day(self.timestamp2) };
        [k1, k2]
    }

    /// Whether `sent` already covers one of this ticket's days for its plate.
    pub fn already_sent(&self, sent: &Vec<DateKey>) -> (r: bool)
        ensures
            r == covered(key_set(sent@), self@),
    {
        let d1 = utc_day(self.timestamp1);
        let d2 = utc_day(self.timestamp2);
        let mut i: usize = 0;
        while i < sent.len()
            invariant
                i <= sent@.len(),
                d1 == day_of(self.timestamp1),
                d2 == day_of(self.timestamp2),
                forall|j: int| 0 <= j < i ==> !(#[trigger] sent@[j].plate@ == self.plate@
                    && (sent@[j].day == d1 || sent@[j].day == d2)),
            decreases sent@.len() - i,
        {
            if (sent[i].day == d1 || sent[i].day == d2) && same_bytes(&sent[i].plate, &self.plate) {
                return true;
            }
            i = i + 1;
        }
        false
    }

    /// Marks the ticket delivered and records in `sent` those of its two date
    /// keys that `sent` lacks, each once.
    pub fn sent(&mut self, sent: &mut Vec<DateKey>)
        ensures
            final(self)@ == old(self)@,
            !final(self).pending,
            key_seq(final(sent)@) == key_seq(old(sent)@) + new_keys(old(sent)@, old(self)@),
            no_dups(key_seq(old(sent)@)) ==> no_dups(key_seq(final(sent)@)),
            key_set(final(sent)@) == key_set(old(sent)@).union(keys_of(old(self)@)),
    {
        self.pending = false;
        let d1 = utc_day(self.timestamp1);
        let d2 = utc_day(self.timestamp2);
        let ghost s0 = sent@;
        let ghost k1 = (self.plate@, d1 as int);
        let ghost k2 = (self.plate@, d2 as int);
        let has1 = holds_key(sent, &self.plate, d1);
        let has2 = holds_key(sent, &self.plate, d2);
        if !has1 {
            sent.push(DateKey { plate: self.plate.clone(), day: d1 });
        }
        if !has2 && d2 != d1 {
            sent.push(DateKey { plate: self.plate.clone(), day: d2 });
        }
        assert(key_seq(sent@) =~= key_seq(s0) + new_keys(s0, self@));
        proof {
            let ks = key_seq(sent@);
            let k0 = key_seq(s0);
            assert(forall|i: int| 0 <= i < s0.len() ==> #[trigger] k0[i] == (s0[i].plate@, s0[i].day as int));
            if no_dups(k0) {
                assert forall|i: int, j: int| 0 <= i < j < ks.len() implies ks[i] != ks[j] by {
                    if j >= k0.len() && i < k0.len() {
                        assert(ks[i] == k0[i]);
                        assert(key_set(s0).contains(ks[i]));
                    }
                }
            }
        }
        assert forall|k: (Seq<u8>, int)| #[trigger] key_set(sent@).contains(k) <==> (key_set(s0).contains(k)
            || keys_of(self@).contains(k)) by {
            if key_set(sent@).contains(k) {
                let i = choose|i: int| 0 <= i < sent@.len() && #[trigger] sent@[i].plate@ == k.0 && sent@[i].day == k.1;
                if i < s0.len() {
                    assert(s0[i] == sent@[i]);
                }
            }
            if key_set(s0).contains(k) {
                let i = choose|i: int| 0 <= i < s0.len() && #[trigger] s0[i].plate@ == k.0 && s0[i].day == k.1;
                assert(sent@[i] == s0[i]);
            }
            if k == k1 && !has1 {
                assert(sent@[s0.len() as int].plate@ == k.0);
            }
            if k == k2 && !has2 && d2 != d1 {
                let n = if has1 { s0.len() as int } else { s0.len() + 1int };
                assert(sent@[n].plate@ == k.0);
            }
        }
        assert(key_set(sent@) =~= key_set(s0).union(keys_of(self@)));
    }

    /// The ticket's wire form.
    pub fn encode(&self) -> (r: Vec<u8>)
        requires
            self.plate@.len() <= 255,
        ensures
            r@ == ticket_frame(self@),
    {
        let mut out: Vec<u8> = Vec::new();
        out.push(TICKET);
        out.push(self.plate.len() as u8);
        let mut i: usize = 0;
        while i < self.plate.len()
            invariant
                i <= self.plate@.len(),
                out@ == seq![TICKET, self.plate@.len() as u8] + self.plate@.subrange(0, i as int),
            decreases self.plate@.len() - i,
        {
            out.push(self.plate[i]);
            i = i + 1;
            assert(out@ =~= seq![TICKET, self.plate@.len() as u8] + self.plate@.subrange(0, i as int));
        }
        assert(self.plate@.subrange(0, self.plate@.len() as int) =~= self.plate@);
        push_be16(&mut out, self.road);
        push_be16(&mut out, self.mile1);
        push_be32(&mut out, self.timestamp1);
        push_be16(&mut out, self.mile2);
        push_be32(&mut out, self.timestamp2);
        push_be16(&mut out, self.speed);
        out
    }
}

/// The error frame that precedes the closing of a connection.
pub fn encode_error() -> (r: Message)
    ensures
        r matches Message::Encoded(b) && b@ == error_frame(),
{
    let mut out: Vec<u8> = Vec::new();
    out.push(ERROR);
    let text: [u8; 6] = [69u8, 114u8, 114u8, 111u8, 114u8, 33u8];
    out.push(6u8);
    let mut i: usize = 0;
    while i < 6
        invariant
            i <= 6,
            out@ == seq![ERROR, 6u8] + text@.subrange(0, i as int),
        decreases 6 - i,
    {
        out.push(text[i]);
        i = i + 1;
        assert(out@ =~= seq![ERROR, 6u8] + text@.subrange(0, i as int));
    }
    assert(out@ =~= error_frame());
    Message::Encoded(out)
}

} // verus!

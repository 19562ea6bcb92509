use vstd::prelude::*;

use std::collections::HashMap;

use crate::message::{
    covered, day_of, key_seq, key_set, keys_of, no_dups, same_bytes, DateKey, Ticket, TicketView, Timestamp,
};

verus! {

/// Largest value of a 16-bit speed.
pub const MAX_SPEED: u16 = 65535;

/// Miles between two sightings.
pub open spec fn distance(a: Timestamp, b: Timestamp) -> int {
    if b.mile >= a.mile {
        b.mile - a.mile
    } else {
        a.mile - b.mile
    }
}

/// Average speed from `a` to `b` (with `a` before `b`) in hundredths of a mile
/// per hour: `distance / elapsed * 3600 * 100`, rounded half up, and held at the
/// largest 16-bit value where it is larger.
pub open spec fn speed_of(a: Timestamp, b: Timestamp) -> int {
    let elapsed = b.timestamp - a.timestamp;
    let q = (distance(a, b) * 720000 + elapsed) / (2 * elapsed);
    if q > MAX_SPEED {
        MAX_SPEED as int
    } else {
        q
    }
}

/// The earlier and the later of two sightings.
pub open spec fn legs(o: Timestamp, n: Timestamp) -> (Timestamp, Timestamp) {
    if o.timestamp < n.timestamp {
        (o, n)
    } else {
        (n, o)
    }
}

/// Whether the average speed between two sightings at distinct times exceeds
/// the limit of the earlier one.
pub open spec fn speeding(o: Timestamp, n: Timestamp) -> bool {
    let (a, b) = legs(o, n);
    speed_of(a, b) > a.limit * 100
}

/// The ticket for `plate` between two sightings at distinct times: the earlier
/// sighting is its first leg.
pub open spec fn ticket_of(plate: Seq<u8>, o: Timestamp, n: Timestamp) -> TicketView {
    let (a, b) = legs(o, n);
    TicketView {
        plate,
        road: a.road,
        mile1: a.mile,
        timestamp1: a.timestamp,
        mile2: b.mile,
        timestamp2: b.timestamp,
        speed: speed_of(a, b) as u16,
    }
}

/// The tickets that a new sighting `n` of `plate` makes with the earlier
/// sightings `obs` of the same plate on the same road, in the order of `obs`.
pub open spec fn candidates(plate: Seq<u8>, obs: Seq<Timestamp>, n: Timestamp) -> Seq<TicketView>
    decreases obs.len(),
{
    if obs.len() == 0 {
        seq![]
    } else {
        let prev = candidates(plate, obs.drop_last(), n);
        let o = obs.last();
        if o.timestamp != n.timestamp && speeding(o, n) {
            prev.push(ticket_of(plate, o, n))
        } else {
            prev
        }
    }
}

proof fn lemma_speed_range(a: Timestamp, b: Timestamp)
    requires
        a.timestamp < b.timestamp,
    ensures
        0 <= speed_of(a, b) <= MAX_SPEED,
{
    let e = b.timestamp - a.timestamp;
    let d = distance(a, b);
    assert((d * 720000 + e) / (2 * e) >= 0) by (nonlinear_arith)
        requires
            d >= 0,
            e > 0,
    ;
}

/// A sighting of a plate and an earlier-recorded one of it on the same road, at
/// distinct times and with an average speed over the limit, give a ticket
/// candidate: its legs in increasing order of time, its speed that average.
pub proof fn lemma_speeding_pair_gives_ticket(plate: Seq<u8>, obs: Seq<Timestamp>, n: Timestamp, i: int)
    requires
        0 <= i < obs.len(),
        obs[i].timestamp != n.timestamp,
        speeding(obs[i], n),
    ensures
        candidates(plate, obs, n).contains(ticket_of(plate, obs[i], n)),
        ticket_of(plate, obs[i], n).timestamp1 < ticket_of(plate, obs[i], n).timestamp2,
        ticket_of(plate, obs[i], n).speed == speed_of(legs(obs[i], n).0, legs(obs[i], n).1),
        ticket_of(plate, obs[i], n).speed > legs(obs[i], n).0.limit * 100,
    decreases obs.len(),
{
    let (a, b) = legs(obs[i], n);
    lemma_speed_range(a, b);
    let c = candidates(plate, obs, n);
    let t = ticket_of(plate, obs[i], n);
    if i == obs.len() - 1 {
        assert(c[c.len() - 1] == t);
    } else {
        lemma_speeding_pair_gives_ticket(plate, obs.drop_last(), n, i);
        let prev = candidates(plate, obs.drop_last(), n);
        let j = choose|j: int| 0 <= j < prev.len() && prev[j] == t;
        assert(c[j] == t);
    }
}

/// Average speed from `a` to `b`, in hundredths of a mile per hour.
pub fn speed_between(a: &Timestamp, b: &Timestamp) -> (r: u16)
    requires
        a.timestamp < b.timestamp,
    ensures
        r == speed_of(*a, *b),
{
    let d: u64 = if b.mile >= a.mile {
        (b.mile - a.mile) as u64
    } else {
        (a.mile - b.mile) as u64
    };
    let e: u64 = (b.timestamp - a.timestamp) as u64;
    assert(d * 720000 <= 65535 * 720000) by (nonlinear_arith)
        requires
            d <= 65535,
    ;
    let q: u64 = (d * 720000 + e) / (2 * e);
    if q > MAX_SPEED as u64 {
        MAX_SPEED
    } else {
        q as u16
    }
}

/// The ticket that a new sighting `n` of `plate` makes with an earlier sighting
/// `o` of it on the same road, if the two are at distinct times and the average
/// speed between them exceeds the limit.
pub fn ticket_between(plate: &Vec<u8>, o: &Timestamp, n: &Timestamp) -> (r: Option<Ticket>)
    ensures
        match r {
            Some(t) => o.timestamp != n.timestamp && speeding(*o, *n) && t@ == ticket_of(plate@, *o, *n)
                && t.pending,
            None => !(o.timestamp != n.timestamp && speeding(*o, *n)),
        },
{
    if o.timestamp == n.timestamp {
        return None;
    }
    let (a, b) = if o.timestamp < n.timestamp {
        (o, n)
    } else {
        (n, o)
    };
    let speed = speed_between(a, b);
    if speed as u32 > a.limit as u32 * 100 {
        Some(Ticket::new(plate.clone(), *a, *b, speed))
    } else {
        None
    }
}


/// A ticket handed to the dispatcher connection `dispatcher`.
#[derive(Debug)]
pub struct Delivery {
    pub dispatcher: u64,
    pub ticket: Ticket,
}

/// The sightings of one plate on one road.
#[derive(Debug)]
pub struct Bucket {
    pub plate: Vec<u8>,
    pub road: u16,
    pub observations: Vec<Timestamp>,
}

/// An event for the engine.
#[derive(Debug)]
pub enum Registration {
    /// The dispatcher connection with this id takes these roads.
    NewDispatcher(Vec<u16>, u64),
    /// A camera saw this plate.
    NewTimestamp(Vec<u8>, Timestamp),
}

/// The engine's ticket state while tickets are handled one by one: the date
/// keys already covered, the tickets held for want of a dispatcher, and the
/// tickets handed out so far with their dispatcher.
pub struct Flow {
    pub keys: Set<(Seq<u8>, int)>,
    pub outbox: Seq<TicketView>,
    pub out: Seq<(u64, TicketView)>,
}

/// A new candidate ticket `t`: dropped if a day of it is already covered for
/// its plate, else handed to its road's dispatcher if there is one (its days
/// then covered), else held.
pub open spec fn offer(f: Flow, routes: Map<u16, u64>, t: TicketView) -> Flow {
    if covered(f.keys, t) {
        f
    } else if routes.contains_key(t.road) {
        Flow { keys: f.keys.union(keys_of(t)), outbox: f.outbox, out: f.out.push((routes[t.road], t)) }
    } else {
        Flow { keys: f.keys, outbox: f.outbox.push(t), out: f.out }
    }
}

/// `offer` applied to each ticket of `ts` in turn.
pub open spec fn offer_all(f: Flow, routes: Map<u16, u64>, ts: Seq<TicketView>) -> Flow
    decreases ts.len(),
{
    if ts.len() == 0 {
        f
    } else {
        offer(offer_all(f, routes, ts.drop_last()), routes, ts.last())
    }
}

/// A held ticket `t` when dispatcher `id` takes `roads`: kept if its road is
/// not among them, else dropped if a day of it is already covered, else handed
/// to `id` and its days covered.
pub open spec fn release(f: Flow, roads: Seq<u16>, id: u64, t: TicketView) -> Flow {
    if !roads.contains(t.road) {
        Flow { keys: f.keys, outbox: f.outbox.push(t), out: f.out }
    } else if covered(f.keys, t) {
        f
    } else {
        Flow { keys: f.keys.union(keys_of(t)), outbox: f.outbox, out: f.out.push((id, t)) }
    }
}

/// `release` applied to each held ticket of `ts` in turn.
pub open spec fn release_all(f: Flow, roads: Seq<u16>, id: u64, ts: Seq<TicketView>) -> Flow
    decreases ts.len(),
{
    if ts.len() == 0 {
        f
    } else {
        release(release_all(f, roads, id, ts.drop_last()), roads, id, ts.last())
    }
}

/// When a dispatcher registers for `roads`, no held ticket on those roads stays
/// held, and every ticket handed out goes to that dispatcher and was held.
pub proof fn lemma_release_clears_roads(f: Flow, roads: Seq<u16>, id: u64, ts: Seq<TicketView>)
    requires
        forall|i: int| 0 <= i < f.outbox.len() ==> !roads.contains(#[trigger] f.outbox[i].road),
    ensures
        ({
            let g = release_all(f, roads, id, ts);
            &&& forall|i: int| 0 <= i < g.outbox.len() ==> !roads.contains(#[trigger] g.outbox[i].road)
            &&& f.out.len() <= g.out.len()
            &&& g.out.take(f.out.len() as int) == f.out
            &&& forall|i: int| f.out.len() <= i < g.out.len() ==> (#[trigger] g.out[i]).0 == id && ts.contains(g.out[i].1)
        }),
    decreases ts.len(),
{
    if ts.len() > 0 {
        let ts0 = ts.drop_last();
        let t = ts.last();
        lemma_release_clears_roads(f, roads, id, ts0);
        let h = release_all(f, roads, id, ts0);
        let g = release_all(f, roads, id, ts);
        assert(g == release(h, roads, id, t));
        assert forall|i: int| f.out.len() <= i < h.out.len() implies ts.contains(h.out[i].1) by {
            let j = choose|j: int| 0 <= j < ts0.len() && ts0[j] == h.out[i].1;
            assert(ts[j] == ts0[j]);
        }
        assert(ts[ts.len() - 1] == t);
        if roads.contains(t.road) && !covered(h.keys, t) {
            assert(g.out.take(f.out.len() as int) =~= h.out.take(f.out.len() as int));
            assert forall|i: int| f.out.len() <= i < g.out.len() implies (#[trigger] g.out[i]).0 == id && ts.contains(g.out[i].1) by {
                if i < h.out.len() {
                    assert(g.out[i] == h.out[i]);
                }
            }
        }
    } else {
        assert(f.out.take(f.out.len() as int) =~= f.out);
    }
}

/// Whether `a` is a prefix of `b`.
pub open spec fn is_prefix<T>(a: Seq<T>, b: Seq<T>) -> bool {
    a.len() <= b.len() && b.take(a.len() as int) == a
}

proof fn lemma_prefix_push<T>(a: Seq<T>, b: Seq<T>, x: T)
    requires
        is_prefix(a, b),
    ensures
        is_prefix(a, b.push(x)),
{
    assert(b.push(x).take(a.len() as int) =~= b.take(a.len() as int));
}

proof fn lemma_offer_all_prefix(f: Flow, routes: Map<u16, u64>, ts: Seq<TicketView>, k: int)
    requires
        0 <= k <= ts.len(),
    ensures
        is_prefix(offer_all(f, routes, ts.take(k)).out, offer_all(f, routes, ts).out),
        is_prefix(offer_all(f, routes, ts.take(k)).outbox, offer_all(f, routes, ts).outbox),
    decreases ts.len(),
{
    let g = offer_all(f, routes, ts);
    if k == ts.len() {
        assert(ts.take(k) =~= ts);
        assert(g.out.take(g.out.len() as int) =~= g.out);
        assert(g.outbox.take(g.outbox.len() as int) =~= g.outbox);
    } else {
        let ts0 = ts.drop_last();
        assert(ts0.take(k) =~= ts.take(k));
        lemma_offer_all_prefix(f, routes, ts0, k);
        let h = offer_all(f, routes, ts0);
        let t = ts.last();
        if !covered(h.keys, t) && routes.contains_key(t.road) {
            lemma_prefix_push(offer_all(f, routes, ts.take(k)).out, h.out, (routes[t.road], t));
        } else if !covered(h.keys, t) {
            lemma_prefix_push(offer_all(f, routes, ts.take(k)).outbox, h.outbox, t);
        }
    }
}

/// What becomes of the candidate `ts[j]` of an event: if a date key of it is
/// covered at its turn (before the event, or by a ticket handed out earlier in
/// it), it is dropped; otherwise it is handed, whole, to its road's dispatcher
/// if the road has one, and else it is held.
pub proof fn lemma_candidate_fate(f: Flow, routes: Map<u16, u64>, ts: Seq<TicketView>, j: int)
    requires
        0 <= j < ts.len(),
    ensures
        ({
            let h = offer_all(f, routes, ts.take(j));
            let g = offer_all(f, routes, ts);
            let t = ts[j];
            &&& covered(h.keys, t) ==> offer(h, routes, t) == h
            &&& !covered(h.keys, t) && routes.contains_key(t.road) ==> g.out.contains((routes[t.road], t))
                && !g.outbox.subrange(h.outbox.len() as int, g.outbox.len() as int).contains(t)
            &&& !covered(h.keys, t) && !routes.contains_key(t.road) ==> g.outbox.contains(t)
        }),
{
    let h = offer_all(f, routes, ts.take(j));
    let g = offer_all(f, routes, ts);
    let t = ts[j];
    assert(ts.take(j + 1).drop_last() =~= ts.take(j));
    assert(ts.take(j + 1).last() == t);
    let h1 = offer_all(f, routes, ts.take(j + 1));
    lemma_offer_all_prefix(f, routes, ts, j + 1);
    lemma_offer_all_prefix(f, routes, ts, j);
    if !covered(h.keys, t) && routes.contains_key(t.road) {
        assert(g.out[h1.out.len() - 1] == h1.out[h1.out.len() - 1]);
        assert(h1.outbox == h.outbox);
        lemma_no_held_routed(f, routes, ts, j + 1, t);
    } else if !covered(h.keys, t) {
        assert(g.outbox[h1.outbox.len() - 1] == h1.outbox[h1.outbox.len() - 1]);
    }
}

proof fn lemma_no_held_routed(f: Flow, routes: Map<u16, u64>, ts: Seq<TicketView>, k: int, t: TicketView)
    requires
        0 <= k <= ts.len(),
        routes.contains_key(t.road),
    ensures
        ({
            let h = offer_all(f, routes, ts.take(k));
            let g = offer_all(f, routes, ts);
            !g.outbox.subrange(h.outbox.len() as int, g.outbox.len() as int).contains(t)
        }),
    decreases ts.len(),
{
    let h = offer_all(f, routes, ts.take(k));
    let g = offer_all(f, routes, ts);
    lemma_offer_all_prefix(f, routes, ts, k);
    if k == ts.len() {
        assert(ts.take(k) =~= ts);
        assert(g.outbox.subrange(h.outbox.len() as int, g.outbox.len() as int) =~= Seq::<TicketView>::empty());
    } else {
        let ts0 = ts.drop_last();
        assert(ts0.take(k) =~= ts.take(k));
        lemma_no_held_routed(f, routes, ts0, k, t);
        lemma_offer_all_prefix(f, routes, ts0, k);
        let g0 = offer_all(f, routes, ts0);
        let x = ts.last();
        let tail0 = g0.outbox.subrange(h.outbox.len() as int, g0.outbox.len() as int);
        let tail = g.outbox.subrange(h.outbox.len() as int, g.outbox.len() as int);
        if !covered(g0.keys, x) && !routes.contains_key(x.road) {
            assert(tail =~= tail0.push(x));
            assert(x != t);
            if tail.contains(t) {
                let i = choose|i: int| 0 <= i < tail.len() && tail[i] == t;
                assert(tail0[i] == t);
            }
        } else {
            assert(tail =~= tail0);
        }
    }
}

proof fn lemma_release_all_prefix(f: Flow, roads: Seq<u16>, id: u64, ts: Seq<TicketView>, k: int)
    requires
        0 <= k <= ts.len(),
    ensures
        is_prefix(release_all(f, roads, id, ts.take(k)).out, release_all(f, roads, id, ts).out),
        is_prefix(release_all(f, roads, id, ts.take(k)).outbox, release_all(f, roads, id, ts).outbox),
    decreases ts.len(),
{
    let g = release_all(f, roads, id, ts);
    if k == ts.len() {
        assert(ts.take(k) =~= ts);
        assert(g.out.take(g.out.len() as int) =~= g.out);
        assert(g.outbox.take(g.outbox.len() as int) =~= g.outbox);
    } else {
        let ts0 = ts.drop_last();
        assert(ts0.take(k) =~= ts.take(k));
        lemma_release_all_prefix(f, roads, id, ts0, k);
        let h = release_all(f, roads, id, ts0);
        let t = ts.last();
        if !roads.contains(t.road) {
            lemma_prefix_push(release_all(f, roads, id, ts.take(k)).outbox, h.outbox, t);
        } else if !covered(h.keys, t) {
            lemma_prefix_push(release_all(f, roads, id, ts.take(k)).out, h.out, (id, t));
        }
    }
}

/// What becomes of the held ticket `ts[j]` when dispatcher `id` takes
/// `roads`: on another road it stays held; on one of `roads`, it is dropped if
/// a date key of it is covered at its turn, and otherwise handed, whole, to `id`.
pub proof fn lemma_held_ticket_fate(f: Flow, roads: Seq<u16>, id: u64, ts: Seq<TicketView>, j: int)
    requires
        0 <= j < ts.len(),
    ensures
        ({
            let h = release_all(f, roads, id, ts.take(j));
            let g = release_all(f, roads, id, ts);
            let t = ts[j];
            &&& !roads.contains(t.road) ==> g.outbox.contains(t)
            &&& roads.contains(t.road) && covered(h.keys, t) ==> release(h, roads, id, t) == h
            &&& roads.contains(t.road) && !covered(h.keys, t) ==> g.out.contains((id, t))
        }),
{
    let h = release_all(f, roads, id, ts.take(j));
    let g = release_all(f, roads, id, ts);
    let t = ts[j];
    assert(ts.take(j + 1).drop_last() =~= ts.take(j));
    assert(ts.take(j + 1).last() == t);
    let h1 = release_all(f, roads, id, ts.take(j + 1));
    lemma_release_all_prefix(f, roads, id, ts, j + 1);
    if !roads.contains(t.road) {
        assert(g.outbox[h1.outbox.len() - 1] == h1.outbox[h1.outbox.len() - 1]);
    } else if !covered(h.keys, t) {
        assert(g.out[h1.out.len() - 1] == h1.out[h1.out.len() - 1]);
    }
}

/// Deliveries as (dispatcher, ticket) pairs.
pub open spec fn sent_out(ds: Seq<Delivery>) -> Seq<(u64, TicketView)> {
    ds.map_values(|d: Delivery| (d.dispatcher, d.ticket@))
}

/// Whether the sightings are in strictly increasing order of time.
pub open spec fn sorted(obs: Seq<Timestamp>) -> bool {
    forall|i: int, j: int| 0 <= i < j < obs.len() ==> obs[i].timestamp < obs[j].timestamp
}

/// Whether one of the sightings is at time `t`.
pub open spec fn has_time(obs: Seq<Timestamp>, t: u32) -> bool {
    exists|i: int| 0 <= i < obs.len() && #[trigger] obs[i].timestamp == t
}

/// Whether bucket `b` is that of `plate` on `road`.
pub open spec fn is_bucket(b: Bucket, plate: Seq<u8>, road: u16) -> bool {
    b.plate@ == plate && b.road == road
}

/// Whether no two buckets are for the same plate and road.
pub open spec fn unique(bs: Seq<Bucket>) -> bool {
    forall|i: int, j: int|
        0 <= i < bs.len() && 0 <= j < bs.len() && #[trigger] is_bucket(bs[i], bs[j].plate@, bs[j].road)
            && #[trigger] bs[j].road == bs[j].road ==> i == j
}

/// The sightings of `plate` on `road`.
pub open spec fn obs_of(bs: Seq<Bucket>, plate: Seq<u8>, road: u16) -> Seq<Timestamp> {
    if exists|i: int| 0 <= i < bs.len() && #[trigger] is_bucket(bs[i], plate, road) {
        let i = choose|i: int| 0 <= i < bs.len() && #[trigger] is_bucket(bs[i], plate, road);
        bs[i].observations@
    } else {
        seq![]
    }
}

/// Whether no two tickets of `log` share a date key, and all their keys are in `keys`.
pub open spec fn log_ok(log: Seq<TicketView>, keys: Set<(Seq<u8>, int)>) -> bool {
    &&& forall|i: int, j: int|
        0 <= i < j < log.len() ==> #[trigger] keys_of(log[i]).disjoint(#[trigger] keys_of(log[j]))
    &&& forall|i: int| 0 <= i < log.len() ==> #[trigger] keys_of(log[i]).subset_of(keys)
}

proof fn lemma_obs_at(bs: Seq<Bucket>, i: int, plate: Seq<u8>, road: u16)
    requires
        unique(bs),
        0 <= i < bs.len(),
        is_bucket(bs[i], plate, road),
    ensures
        obs_of(bs, plate, road) == bs[i].observations@,
{
    let j = choose|j: int| 0 <= j < bs.len() && #[trigger] is_bucket(bs[j], plate, road);
    assert(is_bucket(bs[j], bs[i].plate@, bs[i].road));
    assert(bs[i].road == bs[i].road);
}

proof fn lemma_obs_none(bs: Seq<Bucket>, plate: Seq<u8>, road: u16)
    requires
        forall|i: int| 0 <= i < bs.len() ==> !#[trigger] is_bucket(bs[i], plate, road),
    ensures
        obs_of(bs, plate, road) == Seq::<Timestamp>::empty(),
{
}

proof fn lemma_offer_all_push(f: Flow, routes: Map<u16, u64>, ts: Seq<TicketView>, t: TicketView)
    ensures
        offer_all(f, routes, ts.push(t)) == offer(offer_all(f, routes, ts), routes, t),
{
    assert(ts.push(t).drop_last() =~= ts);
}

proof fn lemma_release_all_push(f: Flow, roads: Seq<u16>, id: u64, ts: Seq<TicketView>, t: TicketView)
    ensures
        release_all(f, roads, id, ts.push(t)) == release(release_all(f, roads, id, ts), roads, id, t),
{
    assert(ts.push(t).drop_last() =~= ts);
}

proof fn lemma_candidates_step(plate: Seq<u8>, obs: Seq<Timestamp>, n: Timestamp, j: int)
    requires
        0 <= j < obs.len(),
    ensures
        candidates(plate, obs.take(j + 1), n) == if obs[j].timestamp != n.timestamp && speeding(obs[j], n) {
            candidates(plate, obs.take(j), n).push(ticket_of(plate, obs[j], n))
        } else {
            candidates(plate, obs.take(j), n)
        },
{
    assert(obs.take(j + 1).drop_last() =~= obs.take(j));
}

/// Whether one of the sightings is at time `t`.
fn find_time(obs: &Vec<Timestamp>, t: u32) -> (r: bool)
    ensures
        r == has_time(obs@, t),
{
    let mut i: usize = 0;
    while i < obs.len()
        invariant
            i <= obs@.len(),
            forall|j: int| 0 <= j < i ==> obs@[j].timestamp != t,
        decreases obs@.len() - i,
    {
        if obs[i].timestamp == t {
            return true;
        }
        i = i + 1;
    }
    false
}

/// Inserts `ts` among sightings in increasing order of time, none at its time.
fn insert_sorted(obs: &mut Vec<Timestamp>, ts: Timestamp)
    requires
        sorted(old(obs)@),
        !has_time(old(obs)@, ts.timestamp),
    ensures
        sorted(final(obs)@),
        exists|k: int| 0 <= k <= old(obs)@.len() && final(obs)@ == old(obs)@.insert(k, ts),
{
    let mut i: usize = 0;
    while i < obs.len() && obs[i].timestamp < ts.timestamp
        invariant
            i <= obs@.len(),
            forall|j: int| 0 <= j < i ==> obs@[j].timestamp < ts.timestamp,
        decreases obs@.len() - i,
    {
        i = i + 1;
    }
    let ghost o0 = obs@;
    proof {
        if i < o0.len() {
            assert(o0[i as int].timestamp != ts.timestamp);
        }
    }
    obs.insert(i, ts);
    assert forall|a: int, b: int| 0 <= a < b < obs@.len() implies obs@[a].timestamp < obs@[b].timestamp by {
        if b < i {
        } else if b == i {
        } else if a < i {
            assert(o0[a].timestamp < ts.timestamp);
            assert(obs@[b] == o0[b - 1]);
            assert(o0[i as int].timestamp > ts.timestamp);
            if b - 1 > i {
                assert(o0[i as int].timestamp < o0[b - 1].timestamp);
            }
        } else if a == i {
            assert(o0[i as int].timestamp > ts.timestamp);
            if b - 1 > i {
                assert(o0[i as int].timestamp < o0[b - 1].timestamp);
            }
        } else {
            assert(obs@[a] == o0[a - 1] && obs@[b] == o0[b - 1]);
        }
    }
}

/// Hands `t` to dispatcher `id`, and counts its date keys as covered for the
/// rest of the event.
fn deliver(t: Ticket, id: u64, inflight: &mut Vec<DateKey>, out: &mut Vec<Delivery>)
    requires
        forall|i: int| 0 <= i < old(out)@.len() ==> #[trigger] old(out)@[i].ticket.plate@.len() <= 255,
        t.plate@.len() <= 255,
    ensures
        key_set(final(inflight)@) == key_set(old(inflight)@).union(keys_of(t@)),
        sent_out(final(out)@) == sent_out(old(out)@).push((id, t@)),
        forall|i: int| 0 <= i < final(out)@.len() ==> #[trigger] final(out)@[i].ticket.plate@.len() <= 255,
{
    let mut t = t;
    let ghost o0 = out@;
    t.sent(inflight);
    out.push(Delivery { dispatcher: id, ticket: t });
    assert(sent_out(out@) =~= sent_out(o0).push((id, t@)));
}

/// Whether `road` is among `roads`.
fn has_road(roads: &Vec<u16>, road: u16) -> (r: bool)
    ensures
        r == roads@.contains(road),
{
    let mut i: usize = 0;
    while i < roads.len()
        invariant
            i <= roads@.len(),
            forall|j: int| 0 <= j < i ==> roads@[j] != road,
        decreases roads@.len() - i,
    {
        if roads[i] == road {
            return true;
        }
        i = i + 1;
    }
    false
}

/// What recording the sighting `ts` of `plate` does, from engine state `pre`
/// to engine state `post`, handing out `r`.
///
/// A sighting at a time already recorded for the plate on that road changes
/// nothing. Otherwise it joins that plate's sightings on the road, kept in
/// increasing order of time, and each earlier sighting, in that order, that
/// shows an average speed over the limit gives a ticket, handled as `offer`
/// says, the keys of tickets handed out earlier in the event counting as
/// covered. The dispatchers stay, and `r` lists the tickets handed out; their
/// date keys become covered only when `confirm` records their delivery.
pub open spec fn timestamp_step(pre: Ticketmaster, post: Ticketmaster, plate: Seq<u8>, ts: Timestamp, r: Seq<Delivery>) -> bool {
    let obs = pre.observations(plate, ts.road);
    &&& post.routes() == pre.routes()
    &&& forall|p: Seq<u8>, road: u16|
        !(p == plate && road == ts.road) ==> #[trigger] post.observations(p, road) == pre.observations(p, road)
    &&& has_time(obs, ts.timestamp) ==> {
        &&& post.observations(plate, ts.road) == obs
        &&& post.keys() == pre.keys()
        &&& post.pending() == pre.pending()
        &&& r.len() == 0
    }
    &&& !has_time(obs, ts.timestamp) ==> {
        let f = offer_all(pre.flow(), pre.routes(), candidates(plate, obs, ts));
        &&& exists|k: int| 0 <= k <= obs.len() && post.observations(plate, ts.road) == obs.insert(k, ts)
        &&& post.pending() == f.outbox
        &&& sent_out(r) == f.out
    }
    &&& post.keys() == pre.keys()
    &&& post.delivered@ == pre.delivered@
    &&& forall|i: int| 0 <= i < r.len() ==> #[trigger] r[i].ticket.plate@.len() <= 255
}

/// What registering dispatcher `id` for `roads` does, from engine state `pre`
/// to engine state `post`, handing out `r`.
///
/// Held tickets are gone through in order, as `release` says: one on none of
/// `roads` stays held, one with a date key already covered is dropped, and the
/// others are handed to `id` and their date keys covered. Then `id` becomes the
/// dispatcher of each road of `roads`, in place of any earlier one; the other
/// roads keep theirs, and the sightings stay. Date keys become covered only
/// when `confirm` records a delivery.
pub open spec fn dispatcher_step(pre: Ticketmaster, post: Ticketmaster, roads: Seq<u16>, id: u64, r: Seq<Delivery>) -> bool {
    let f = release_all((Flow { keys: pre.keys(), outbox: seq![], out: seq![] }), roads, id, pre.pending());
    &&& post.keys() == pre.keys()
    &&& post.pending() == f.outbox
    &&& sent_out(r) == f.out
    &&& forall|road: u16| #[trigger] post.routes().contains_key(road)
        <==> (pre.routes().contains_key(road) || roads.contains(road))
    &&& forall|road: u16| #[trigger] roads.contains(road) ==> post.routes()[road] == id
    &&& forall|road: u16| !roads.contains(road) && #[trigger] pre.routes().contains_key(road)
        ==> post.routes()[road] == pre.routes()[road]
    &&& forall|p: Seq<u8>, road: u16| #[trigger] post.observations(p, road) == pre.observations(p, road)
    &&& post.delivered@ == pre.delivered@
    &&& forall|i: int| 0 <= i < r.len() ==> #[trigger] r[i].ticket.plate@.len() <= 255
}

/// Whether a plate in an event fits its one-byte length on the wire.
pub open spec fn event_ok(ev: Registration) -> bool {
    match ev {
        Registration::NewTimestamp(plate, _) => plate@.len() <= 255,
        Registration::NewDispatcher(_, _) => true,
    }
}

/// The single owner of all cross-connection state: the sightings of each plate
/// on each road, the dispatcher of each road, the tickets held for want of one,
/// and the date keys already covered by a delivered ticket.
pub struct Ticketmaster {
    pub dispatchers: HashMap<u16, u64>,
    pub outbox: Vec<Ticket>,
    pub buckets: Vec<Bucket>,
    pub sent: Vec<DateKey>,
    /// Every ticket delivered so far, in order.
    pub delivered: Ghost<Seq<TicketView>>,
}

impl Ticketmaster {
    /// The date keys covered by delivered tickets.
    pub open spec fn keys(&self) -> Set<(Seq<u8>, int)> {
        key_set(self.sent@)
    }

    /// The held tickets, in order.
    pub open spec fn pending(&self) -> Seq<TicketView> {
        self.outbox@.map_values(|t: Ticket| t@)
    }

    /// The dispatcher of each road that has one.
    pub open spec fn routes(&self) -> Map<u16, u64> {
        self.dispatchers@
    }

    /// The sightings of `plate` on `road`.
    pub open spec fn observations(&self, plate: Seq<u8>, road: u16) -> Seq<Timestamp> {
        obs_of(self.buckets@, plate, road)
    }

    /// The state as a flow with nothing handed out yet.
    pub open spec fn flow(&self) -> Flow {
        Flow { keys: self.keys(), outbox: self.pending(), out: seq![] }
    }

    pub open spec fn wf(&self) -> bool {
        &&& unique(self.buckets@)
        &&& forall|i: int| 0 <= i < self.buckets@.len() ==> sorted(#[trigger] self.buckets@[i].observations@)
        &&& forall|i: int| 0 <= i < self.outbox@.len() ==> #[trigger] self.outbox@[i].plate@.len() <= 255
        &&& log_ok(self.delivered@, self.keys())
        &&& no_dups(key_seq(self.sent@))
    }

    /// An engine with no sighting, no dispatcher and no ticket.
    pub fn new() -> (r: Self)
        ensures
            r.wf(),
            r.keys() == Set::<(Seq<u8>, int)>::empty(),
            r.pending() == Seq::<TicketView>::empty(),
            r.routes() == Map::<u16, u64>::empty(),
            forall|p: Seq<u8>, road: u16| r.observations(p, road) == Seq::<Timestamp>::empty(),
            r.delivered@ == Seq::<TicketView>::empty(),
    {
        let r = Ticketmaster {
            dispatchers: HashMap::new(),
            outbox: Vec::new(),
            buckets: Vec::new(),
            sent: Vec::new(),
            delivered: Ghost(Seq::empty()),
        };
        assert(r.keys() =~= Set::<(Seq<u8>, int)>::empty());
        assert(r.pending() =~= Seq::<TicketView>::empty());
        r
    }

    /// The index of the bucket of `plate` on `road`, if there is one.
    fn find_bucket(&self, plate: &Vec<u8>, road: u16) -> (r: Option<usize>)
        ensures
            match r {
                Some(i) => i < self.buckets@.len() && is_bucket(self.buckets@[i as int], plate@, road),
                None => forall|i: int| 0 <= i < self.buckets@.len() ==> !#[trigger] is_bucket(self.buckets@[i], plate@, road),
            },
    {
        let mut i: usize = 0;
        while i < self.buckets.len()
            invariant
                i <= self.buckets@.len(),
                forall|j: int| 0 <= j < i ==> !#[trigger] is_bucket(self.buckets@[j], plate@, road),
            decreases self.buckets@.len() - i,
        {
            if self.buckets[i].road == road && same_bytes(&self.buckets[i].plate, plate) {
                return Some(i);
            }
            i = i + 1;
        }
        None
    }

    /// Records the sighting `ts` of `plate` and handles the tickets it makes.
    ///
    /// A sighting at a time already recorded for the plate on that road changes
    /// nothing. Otherwise it joins that plate's sightings on the road, kept in
    /// increasing order of time, and each earlier sighting, in that order, that
    /// shows an average speed over the limit gives a ticket, handled as `offer`
    /// says. The result lists the tickets handed out, with their dispatcher.
    pub fn new_timestamp(&mut self, plate: Vec<u8>, ts: Timestamp) -> (r: Vec<Delivery>)
        requires
            old(self).wf(),
            plate@.len() <= 255,
        ensures
            final(self).wf(),
            timestamp_step(*old(self), *final(self), plate@, ts, r@),
    {
        let ghost bs0 = self.buckets@;
        let mut out: Vec<Delivery> = Vec::new();
        let mut inflight: Vec<DateKey> = Vec::new();
        let idx = match self.find_bucket(&plate, ts.road) {
            Some(i) => i,
            None => {
                let mut obs: Vec<Timestamp> = Vec::new();
                obs.push(ts);
                self.buckets.push(Bucket { plate, road: ts.road, observations: obs });
                proof {
                    lemma_obs_none(bs0, plate@, ts.road);
                    let bs = self.buckets@;
                    assert forall|i: int, j: int|
                        0 <= i < bs.len() && 0 <= j < bs.len() && #[trigger] is_bucket(bs[i], bs[j].plate@, bs[j].road)
                            && #[trigger] bs[j].road == bs[j].road implies i == j by {
                        if i < bs0.len() && j < bs0.len() {
                            assert(bs[i] == bs0[i] && bs[j] == bs0[j]);
                            assert(bs0[j].road == bs0[j].road);
                        } else if i < bs0.len() {
                            assert(bs[i] == bs0[i]);
                        } else if j < bs0.len() {
                            assert(bs[j] == bs0[j]);
                            assert(is_bucket(bs0[j], plate@, ts.road));
                        }
                    }
                    lemma_obs_at(bs, bs0.len() as int, plate@, ts.road);
                    assert forall|p: Seq<u8>, road: u16| !(p == plate@ && road == ts.road) implies
                        #[trigger] obs_of(bs, p, road) == obs_of(bs0, p, road) by {
                        if exists|i: int| 0 <= i < bs0.len() && #[trigger] is_bucket(bs0[i], p, road) {
                            let i = choose|i: int| 0 <= i < bs0.len() && #[trigger] is_bucket(bs0[i], p, road);
                            lemma_obs_at(bs0, i, p, road);
                            assert(bs[i] == bs0[i]);
                            lemma_obs_at(bs, i, p, road);
                        } else {
                            assert forall|i: int| 0 <= i < bs.len() implies !#[trigger] is_bucket(bs[i], p, road) by {
                                if i < bs0.len() {
                                    assert(bs[i] == bs0[i]);
                                }
                            }
                            lemma_obs_none(bs, p, road);
                        }
                    }
                    assert(candidates(plate@, Seq::<Timestamp>::empty(), ts) == Seq::<TicketView>::empty());
                    assert(Seq::<Timestamp>::empty().insert(0, ts) =~= seq![ts]);
                    assert(sent_out(out@) =~= Seq::<(u64, TicketView)>::empty());
                    assert forall|i: int| 0 <= i < bs.len() implies sorted(#[trigger] bs[i].observations@) by {
                        if i < bs0.len() {
                            assert(bs[i] == bs0[i]);
                            assert(sorted(old(self).buckets@[i].observations@));
                        } else {
                            assert(bs[i].observations@ =~= seq![ts]);
                            assert(sorted(seq![ts]));
                        }
                    }
                }
                return out;
            },
        };
        proof {
            lemma_obs_at(bs0, idx as int, plate@, ts.road);
        }
        if find_time(&self.buckets[idx].observations, ts.timestamp) {
            assert(sent_out(out@) =~= Seq::<(u64, TicketView)>::empty());
            return out;
        }
        let ghost obs = bs0[idx as int].observations@;
        let n = self.buckets[idx].observations.len();
        let mut j: usize = 0;
        proof {
            assert(obs.take(0) =~= Seq::<Timestamp>::empty());
            assert(sent_out(out@) =~= Seq::<(u64, TicketView)>::empty());
            assert(key_set(inflight@) =~= Set::<(Seq<u8>, int)>::empty());
            assert(self.keys().union(key_set(inflight@)) =~= self.keys());
        }
        while j < n
            invariant
                self.buckets@ == bs0,
                idx < bs0.len(),
                obs == bs0[idx as int].observations@,
                n == obs.len(),
                j <= n,
                self.routes() == old(self).routes(),
                (Flow { keys: self.keys().union(key_set(inflight@)), outbox: self.pending(), out: sent_out(out@) })
                    == offer_all(old(self).flow(), old(self).routes(), candidates(plate@, obs.take(j as int), ts)),
                log_ok(self.delivered@, self.keys()),
                no_dups(key_seq(self.sent@)),
                self.sent@ == old(self).sent@,
                self.delivered == old(self).delivered,
                forall|i: int| 0 <= i < self.outbox@.len() ==> #[trigger] self.outbox@[i].plate@.len() <= 255,
                forall|i: int| 0 <= i < out@.len() ==> #[trigger] out@[i].ticket.plate@.len() <= 255,
                plate@.len() <= 255,
            decreases n - j,
        {
            let o = self.buckets[idx].observations[j];
            proof {
                lemma_candidates_step(plate@, obs, ts, j as int);
            }
            match ticket_between(&plate, &o, &ts) {
                Some(t) => {
                    proof {
                        lemma_offer_all_push(old(self).flow(), old(self).routes(),
                            candidates(plate@, obs.take(j as int), ts), t@);
                    }
                    self.offer_ticket(t, &mut inflight, &mut out);
                },
                None => {},
            }
            j = j + 1;
        }
        assert(obs.take(n as int) =~= obs);
        let ghost bs1 = self.buckets@;
        insert_sorted(&mut self.buckets[idx].observations, ts);
        proof {
            let bs = self.buckets@;
            assert forall|a: int, b: int|
                0 <= a < bs.len() && 0 <= b < bs.len() && #[trigger] is_bucket(bs[a], bs[b].plate@, bs[b].road)
                    && #[trigger] bs[b].road == bs[b].road implies a == b by {
                assert(bs0[b].road == bs0[b].road);
                assert(is_bucket(bs0[a], bs0[b].plate@, bs0[b].road));
            }
            assert forall|i: int| 0 <= i < bs.len() implies sorted(#[trigger] bs[i].observations@) by {
                if i != idx {
                    assert(bs[i] == bs0[i]);
                }
            }
            lemma_obs_at(bs, idx as int, plate@, ts.road);
            assert forall|p: Seq<u8>, road: u16| !(p == plate@ && road == ts.road) implies
                #[trigger] obs_of(bs, p, road) == obs_of(bs0, p, road) by {
                if exists|i: int| 0 <= i < bs0.len() && #[trigger] is_bucket(bs0[i], p, road) {
                    let i = choose|i: int| 0 <= i < bs0.len() && #[trigger] is_bucket(bs0[i], p, road);
                    lemma_obs_at(bs0, i, p, road);
                    assert(i != idx);
                    assert(bs[i] == bs0[i]);
                    lemma_obs_at(bs, i, p, road);
                } else {
                    assert forall|i: int| 0 <= i < bs.len() implies !#[trigger] is_bucket(bs[i], p, road) by {
                        if i != idx {
                            assert(bs[i] == bs0[i]);
                        }
                    }
                    lemma_obs_none(bs, p, road);
                }
            }
        }
        out
    }

    /// Registers dispatcher `id` for `roads` and hands it the held tickets on them.
    ///
    /// Held tickets are gone through in order, as `release` says: one on none of
    /// `roads` stays held, one with a date key already covered is dropped, and the
    /// others are handed to `id` and their date keys covered. Then `id` becomes the
    /// dispatcher of each road of `roads`, in place of any earlier one.
    pub fn new_dispatcher(&mut self, roads: &Vec<u16>, id: u64) -> (r: Vec<Delivery>)
        requires
            old(self).wf(),
        ensures
            final(self).wf(),
            dispatcher_step(*old(self), *final(self), roads@, id, r@),
    {
        broadcast use vstd::std_specs::hash::group_hash_axioms;
        let ghost p0 = self.pending();
        let mut inflight: Vec<DateKey> = Vec::new();
        let ghost f0 = Flow { keys: self.keys(), outbox: seq![], out: seq![] };
        let mut held: Vec<Ticket> = Vec::new();
        std::mem::swap(&mut held, &mut self.outbox);
        let ghost h0 = held@;
        let mut out: Vec<Delivery> = Vec::new();
        let ghost mut k: int = 0;
        proof {
            assert(p0.take(0) =~= Seq::<TicketView>::empty());
            assert(self.pending() =~= Seq::<TicketView>::empty());
            assert(sent_out(out@) =~= Seq::<(u64, TicketView)>::empty());
            assert(key_set(inflight@) =~= Set::<(Seq<u8>, int)>::empty());
            assert(self.keys().union(key_set(inflight@)) =~= self.keys());
            assert(held@ =~= h0.skip(0));
        }
        while held.len() > 0
            invariant
                0 <= k <= h0.len(),
                p0 == h0.map_values(|t: Ticket| t@),
                held@ == h0.skip(k),
                self.buckets == old(self).buckets,
                self.dispatchers == old(self).dispatchers,
                (Flow { keys: self.keys().union(key_set(inflight@)), outbox: self.pending(), out: sent_out(out@) })
                    == release_all(f0, roads@, id, p0.take(k)),
                log_ok(self.delivered@, self.keys()),
                no_dups(key_seq(self.sent@)),
                self.sent@ == old(self).sent@,
                self.delivered == old(self).delivered,
                forall|i: int| 0 <= i < h0.len() ==> #[trigger] h0[i].plate@.len() <= 255,
                forall|i: int| 0 <= i < self.outbox@.len() ==> #[trigger] self.outbox@[i].plate@.len() <= 255,
                forall|i: int| 0 <= i < out@.len() ==> #[trigger] out@[i].ticket.plate@.len() <= 255,
            decreases held@.len(),
        {
            let t = held.remove(0);
            proof {
                assert(t == h0[k]);
                assert(p0.take(k + 1) =~= p0.take(k).push(t@));
                lemma_release_all_push(f0, roads@, id, p0.take(k), t@);
                assert(held@ =~= h0.skip(k + 1));
                k = k + 1;
            }
            if !has_road(roads, t.road) {
                let ghost q0 = self.pending();
                self.outbox.push(t);
                assert(self.pending() =~= q0.push(t@));
            } else if !t.already_sent(&self.sent) && !t.already_sent(&inflight) {
                let ghost k0 = key_set(inflight@);
                deliver(t, id, &mut inflight, &mut out);
                assert(self.keys().union(key_set(inflight@)) =~= self.keys().union(k0).union(keys_of(t@)));
            }
        }
        proof {
            assert(p0.take(k) =~= p0);
        }
        let ghost m0 = self.dispatchers@;
        let ghost self1 = *self;
        let mut i: usize = 0;
        proof {
            assert(roads@.take(0) =~= Seq::<u16>::empty());
        }
        while i < roads.len()
            invariant
                i <= roads@.len(),
                self.outbox == self1.outbox,
                self.sent == self1.sent,
                self.buckets == self1.buckets,
                self.delivered == self1.delivered,
                forall|road: u16| #[trigger] self.dispatchers@.contains_key(road)
                    <==> (m0.contains_key(road) || roads@.take(i as int).contains(road)),
                forall|road: u16| #[trigger] roads@.take(i as int).contains(road) ==> self.dispatchers@[road] == id,
                forall|road: u16| !roads@.take(i as int).contains(road) && #[trigger] m0.contains_key(road)
                    ==> self.dispatchers@[road] == m0[road],
            decreases roads@.len() - i,
        {
            let road = roads[i];
            self.dispatchers.insert(road, id);
            proof {
                let s0 = roads@.take(i as int);
                let s1 = roads@.take(i + 1);
                assert(s1 =~= s0.push(road));
                assert forall|x: u16| #[trigger] s1.contains(x) <==> (s0.contains(x) || x == road) by {
                    if s1.contains(x) {
                        let j = choose|j: int| 0 <= j < s1.len() && s1[j] == x;
                        if j < s0.len() {
                            assert(s0[j] == x);
                        }
                    }
                    if s0.contains(x) {
                        let j = choose|j: int| 0 <= j < s0.len() && s0[j] == x;
                        assert(s1[j] == x);
                    }
                    if x == road {
                        assert(s1[i as int] == x);
                    }
                }
            }
            i = i + 1;
        }
        proof {
            assert(roads@.take(roads@.len() as int) =~= roads@);
        }
        out
    }

    /// Handles one event, as `new_timestamp` or `new_dispatcher` says.
    pub fn process(&mut self, ev: Registration) -> (r: Vec<Delivery>)
        requires
            old(self).wf(),
            event_ok(ev),
        ensures
            final(self).wf(),
            match ev {
                Registration::NewTimestamp(plate, ts) => timestamp_step(*old(self), *final(self), plate@, ts, r@),
                Registration::NewDispatcher(roads, id) => dispatcher_step(*old(self), *final(self), roads@, id, r@),
            },
    {
        match ev {
            Registration::NewTimestamp(plate, ts) => self.new_timestamp(plate, ts),
            Registration::NewDispatcher(roads, id) => self.new_dispatcher(&roads, id),
        }
    }

    /// Handles a candidate ticket as `offer` says, `inflight` holding the date
    /// keys of the tickets handed out earlier in the event.
    fn offer_ticket(&mut self, t: Ticket, inflight: &mut Vec<DateKey>, out: &mut Vec<Delivery>)
        requires
            forall|i: int| 0 <= i < old(self).outbox@.len() ==> #[trigger] old(self).outbox@[i].plate@.len() <= 255,
            forall|i: int| 0 <= i < old(out)@.len() ==> #[trigger] old(out)@[i].ticket.plate@.len() <= 255,
            t.plate@.len() <= 255,
        ensures
            offer((Flow { keys: old(self).keys().union(key_set(old(inflight)@)), outbox: old(self).pending(),
                out: sent_out(old(out)@) }), old(self).routes(), t@) == (Flow {
                keys: final(self).keys().union(key_set(final(inflight)@)),
                outbox: final(self).pending(),
                out: sent_out(final(out)@),
            }),
            final(self).dispatchers == old(self).dispatchers,
            final(self).buckets == old(self).buckets,
            final(self).sent == old(self).sent,
            final(self).delivered == old(self).delivered,
            forall|i: int| 0 <= i < final(self).outbox@.len() ==> #[trigger] final(self).outbox@[i].plate@.len() <= 255,
            forall|i: int| 0 <= i < final(out)@.len() ==> #[trigger] final(out)@[i].ticket.plate@.len() <= 255,
    {
        broadcast use vstd::std_specs::hash::group_hash_axioms;
        if t.already_sent(&self.sent) || t.already_sent(inflight) {
            return;
        }
        match self.dispatchers.get(&t.road) {
            Some(id) => {
                let id = *id;
                let ghost k0 = key_set(inflight@);
                deliver(t, id, inflight, out);
                assert(self.keys().union(key_set(inflight@)) =~= self.keys().union(k0).union(keys_of(t@)));
            },
            None => {
                let ghost p0 = self.pending();
                self.outbox.push(t);
                assert(self.pending() =~= p0.push(t@));
            },
        }
    }

    /// Records that `t` has reached its dispatcher: its date keys are covered
    /// from now on. A ticket with a date key covered already is not recorded,
    /// and the result is then false.
    pub fn confirm(&mut self, t: Ticket) -> (r: bool)
        requires
            old(self).wf(),
        ensures
            final(self).wf(),
            r == !covered(old(self).keys(), t@),
            r ==> final(self).keys() == old(self).keys().union(keys_of(t@)) && final(self).delivered@
                == old(self).delivered@.push(t@),
            !r ==> final(self).keys() == old(self).keys() && final(self).delivered@ == old(self).delivered@,
            final(self).dispatchers == old(self).dispatchers,
            final(self).outbox == old(self).outbox,
            final(self).buckets == old(self).buckets,
    {
        if t.already_sent(&self.sent) {
            return false;
        }
        let mut t = t;
        let ghost k0 = self.keys();
        let ghost log0 = self.delivered@;
        t.sent(&mut self.sent);
        let ghost nl = self.delivered@.push(t@);
        self.delivered = Ghost(nl);
        let ghost log = self.delivered@;
        assert forall|i: int, j: int| 0 <= i < j < log.len() implies #[trigger] keys_of(log[i]).disjoint(
            #[trigger] keys_of(log[j])) by {
            if j == log.len() - 1 {
                assert(keys_of(log0[i]).subset_of(k0));
            } else {
                assert(log[i] == log0[i] && log[j] == log0[j]);
            }
        }
        assert forall|i: int| 0 <= i < log.len() implies #[trigger] keys_of(log[i]).subset_of(self.keys()) by {
            if i < log0.len() {
                assert(log[i] == log0[i]);
                assert(keys_of(log0[i]).subset_of(k0));
            }
        }
        true
    }
} // impl Ticketmaster

/// Recording the same sighting of a plate a second time hands out nothing and
/// changes no ticket state, so a pair of sightings sent twice gives its ticket
/// at most once.
pub proof fn lemma_repeated_sighting_is_ignored(
    s0: Ticketmaster,
    s1: Ticketmaster,
    s2: Ticketmaster,
    plate: Seq<u8>,
    ts: Timestamp,
    r1: Seq<Delivery>,
    r2: Seq<Delivery>,
)
    requires
        timestamp_step(s0, s1, plate, ts, r1),
        timestamp_step(s1, s2, plate, ts, r2),
    ensures
        r2.len() == 0,
        s2.keys() == s1.keys(),
        s2.pending() == s1.pending(),
        s2.routes() == s1.routes(),
        s2.observations(plate, ts.road) == s1.observations(plate, ts.road),
{
    let obs = s0.observations(plate, ts.road);
    if !has_time(obs, ts.timestamp) {
        let k = choose|k: int| 0 <= k <= obs.len() && s1.observations(plate, ts.road) == obs.insert(k, ts);
        assert(s1.observations(plate, ts.road)[k].timestamp == ts.timestamp);
    }
}

/// A new sighting `n` of `plate` and an earlier one `obs[i]` on the same road,
/// over the limit, give in that event the ticket `ticket_of(plate, obs[i], n)`
/// (legs in increasing order of time, speed the rounded average). Unless a date
/// key of it is covered at its turn, it is handed to the road's dispatcher if
/// the road has one, and held otherwise.
pub proof fn lemma_speeding_pair_in_event(
    pre: Ticketmaster,
    post: Ticketmaster,
    plate: Seq<u8>,
    n: Timestamp,
    r: Seq<Delivery>,
    i: int,
)
    requires
        timestamp_step(pre, post, plate, n, r),
        !has_time(pre.observations(plate, n.road), n.timestamp),
        0 <= i < pre.observations(plate, n.road).len(),
        speeding(pre.observations(plate, n.road)[i], n),
    ensures
        ({
            let obs = pre.observations(plate, n.road);
            let cs = candidates(plate, obs, n);
            let t = ticket_of(plate, obs[i], n);
            &&& t.timestamp1 < t.timestamp2
            &&& t.speed == speed_of(legs(obs[i], n).0, legs(obs[i], n).1)
            &&& exists|j: int| 0 <= j < cs.len() && cs[j] == t && ({
                let h = offer_all(pre.flow(), pre.routes(), cs.take(j));
                &&& !covered(h.keys, t) && pre.routes().contains_key(t.road)
                    ==> sent_out(r).contains((pre.routes()[t.road], t))
                &&& !covered(h.keys, t) && !pre.routes().contains_key(t.road) ==> post.pending().contains(t)
            })
        }),
{
    let obs = pre.observations(plate, n.road);
    let cs = candidates(plate, obs, n);
    let t = ticket_of(plate, obs[i], n);
    assert(obs[i].timestamp != n.timestamp);
    lemma_speeding_pair_gives_ticket(plate, obs, n, i);
    let j = choose|j: int| 0 <= j < cs.len() && cs[j] == t;
    lemma_candidate_fate(pre.flow(), pre.routes(), cs, j);
}

/// A held ticket on one of `roads`, none of whose date keys is covered at its
/// turn, is handed whole to the dispatcher that takes `roads`; held tickets on
/// other roads stay held.
pub proof fn lemma_held_ticket_in_event(
    pre: Ticketmaster,
    post: Ticketmaster,
    roads: Seq<u16>,
    id: u64,
    r: Seq<Delivery>,
    j: int,
)
    requires
        dispatcher_step(pre, post, roads, id, r),
        0 <= j < pre.pending().len(),
    ensures
        ({
            let t = pre.pending()[j];
            let f0 = Flow { keys: pre.keys(), outbox: seq![], out: seq![] };
            let h = release_all(f0, roads, id, pre.pending().take(j));
            &&& !roads.contains(t.road) ==> post.pending().contains(t)
            &&& roads.contains(t.road) && !covered(h.keys, t) ==> sent_out(r).contains((id, t))
            &&& forall|k: int| 0 <= k < post.pending().len() ==> !roads.contains(#[trigger] post.pending()[k].road)
        }),
{
    let f0 = Flow { keys: pre.keys(), outbox: seq![], out: seq![] };
    lemma_held_ticket_fate(f0, roads, id, pre.pending(), j);
    lemma_release_clears_roads(f0, roads, id, pre.pending());
}

/// No two tickets ever delivered share a date key: once a plate has a ticket
/// covering a day, no other ticket covering that day reaches a dispatcher, and
/// no ticket is delivered twice.
pub proof fn lemma_one_ticket_per_plate_day(tm: &Ticketmaster, i: int, j: int)
    requires
        tm.wf(),
        0 <= i < j < tm.delivered@.len(),
    ensures
        keys_of(tm.delivered@[i]).disjoint(keys_of(tm.delivered@[j])),
        !keys_of(tm.delivered@[j]).contains((tm.delivered@[i].plate, day_of(tm.delivered@[i].timestamp1))),
        !keys_of(tm.delivered@[j]).contains((tm.delivered@[i].plate, day_of(tm.delivered@[i].timestamp2))),
        tm.delivered@[i] != tm.delivered@[j],
{
    assert(keys_of(tm.delivered@[i]).contains((tm.delivered@[i].plate, day_of(tm.delivered@[i].timestamp1))));
    assert(keys_of(tm.delivered@[i]).contains((tm.delivered@[i].plate, day_of(tm.delivered@[i].timestamp2))));
}

} // verus!

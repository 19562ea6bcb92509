use vstd::prelude::*;

use crate::arith::{mean, mean_of, values};

verus! {

/// Tag of an insert request.
pub const INSERT: u8 = 73;

/// Tag of a query request.
pub const QUERY: u8 = 81;

/// What a price request asks of the connection.
#[derive(Debug, Clone, Copy, PartialEq, Eq, Structural)]
pub enum Reply {
    /// Nothing to send.
    Silent,
    /// Send this number, big-endian.
    Answer(i32),
    /// End the connection.
    Stop,
}

/// The signed big-endian 32-bit number at `i`.
pub open spec fn i32_at(b: Seq<u8>, i: int) -> i32 {
    (b[i] * 0x100_0000 + b[i + 1] * 0x1_0000 + b[i + 2] * 256 + b[i + 3]) as u32 as i32
}

/// Whether a price is recorded at time `t`.
pub open spec fn has_stamp(e: Seq<(i32, i32)>, t: i32) -> bool {
    exists|i: int| 0 <= i < e.len() && #[trigger] e[i].0 == t
}

/// The prices recorded at times from `lo` to `hi`, in order of recording.
pub open spec fn prices_in(e: Seq<(i32, i32)>, lo: i32, hi: i32) -> Seq<i32>
    decreases e.len(),
{
    if e.len() == 0 {
        seq![]
    } else {
        let p = prices_in(e.drop_last(), lo, hi);
        if lo <= e.last().0 <= hi {
            p.push(e.last().1)
        } else {
            p
        }
    }
}

/// The rounded mean price at times from `lo` to `hi`: zero when there is none,
/// or when `lo` is after `hi`.
pub open spec fn range_mean(e: Seq<(i32, i32)>, lo: i32, hi: i32) -> int {
    if lo > hi {
        0
    } else {
        mean_of(prices_in(e, lo, hi))
    }
}

/// One connection's prices, by time, in order of recording.
#[derive(Debug)]
pub struct Prices {
    pub entries: Vec<(i32, i32)>,
}

fn read_i32(b: &[u8; 9], i: usize) -> (r: i32)
    requires
        i + 4 <= 9,
    ensures
        r == i32_at(b@, i as int),
{
    (b[i] as u32 * 0x100_0000 + b[i + 1] as u32 * 0x1_0000 + b[i + 2] as u32 * 256 + b[i + 3] as u32) as i32
}

impl Prices {
    /// Whether each time has one price at most.
    pub open spec fn wf(&self) -> bool {
        forall|i: int, j: int| 0 <= i < j < self.entries@.len() ==> self.entries@[i].0 != self.entries@[j].0
    }

    /// No prices.
    pub fn new() -> (r: Self)
        ensures
            r.wf(),
            r.entries@ == Seq::<(i32, i32)>::empty(),
    {
        Prices { entries: Vec::new() }
    }

    /// Records `price` at time `t`, unless a price is recorded at `t` already:
    /// then nothing changes and the result is false.
    pub fn insert(&mut self, t: i32, price: i32) -> (r: bool)
        requires
            old(self).wf(),
        ensures
            final(self).wf(),
            r == !has_stamp(old(self).entries@, t),
            r ==> final(self).entries@ == old(self).entries@.push((t, price)),
            !r ==> final(self).entries@ == old(self).entries@,
    {
        let mut i: usize = 0;
        while i < self.entries.len()
            invariant
                i <= self.entries@.len(),
                self.entries@ == old(self).entries@,
                old(self).wf(),
                forall|j: int| 0 <= j < i ==> self.entries@[j].0 != t,
            decreases self.entries@.len() - i,
        {
            if self.entries[i].0 == t {
                return false;
            }
            i = i + 1;
        }
        self.entries.push((t, price));
        true
    }

    /// The rounded mean price at times from `lo` to `hi`, as `range_mean` says.
    pub fn query(&self, lo: i32, hi: i32) -> (r: i32)
        ensures
            r == range_mean(self.entries@, lo, hi),
    {
        if lo > hi {
            return 0;
        }
        let mut picked: Vec<&i32> = Vec::new();
        let mut i: usize = 0;
        while i < self.entries.len()
            invariant
                i <= self.entries@.len(),
                values(picked@) == prices_in(self.entries@.take(i as int), lo, hi),
            decreases self.entries@.len() - i,
        {
            let ghost p0 = picked@;
            proof {
                assert(self.entries@.take(i + 1).drop_last() =~= self.entries@.take(i as int));
            }
            if lo <= self.entries[i].0 && self.entries[i].0 <= hi {
                picked.push(&self.entries[i].1);
                assert(values(picked@) =~= values(p0).push(self.entries@[i as int].1));
            }
            i = i + 1;
        }
        assert(self.entries@.take(self.entries@.len() as int) =~= self.entries@);
        mean(picked)
    }

    /// Handles one nine-byte request: a tag, then two signed big-endian numbers.
    ///
    /// An insert records a price (the second number) at a time (the first), and
    /// ends the connection if one is recorded there already. A query answers
    /// the rounded mean price at times from the first number to the second. Any
    /// other tag ends the connection.
    pub fn handle_request(&mut self, req: [u8; 9]) -> (r: Reply)
        requires
            old(self).wf(),
        ensures
            final(self).wf(),
            ({
                let a = i32_at(req@, 1);
                let b = i32_at(req@, 5);
                let e = old(self).entries@;
                if req@[0] == INSERT {
                    if has_stamp(e, a) {
                        r == Reply::Stop && final(self).entries@ == e
                    } else {
                        r == Reply::Silent && final(self).entries@ == e.push((a, b))
                    }
                } else if req@[0] == QUERY {
                    r == Reply::Answer(range_mean(e, a, b) as i32) && final(self).entries@ == e
                } else {
                    r == Reply::Stop && final(self).entries@ == e
                }
            }),
    {
        let a = read_i32(&req, 1);
        let b = read_i32(&req, 5);
        if req[0] == INSERT {
            if self.insert(a, b) {
                Reply::Silent
            } else {
                Reply::Stop
            }
        } else if req[0] == QUERY {
            Reply::Answer(self.query(a, b))
        } else {
            Reply::Stop
        }
    }
}

} // verus!

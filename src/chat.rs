use vstd::prelude::*;

use crate::kv::bytes_of;
use crate::message::same_bytes;

verus! {

/// Whether a character is alphabetic or numeric, as Unicode defines them.
pub uninterp spec fn alphanumeric(c: char) -> bool;

/// Relies on `char::is_alphanumeric`: whether `c` has Unicode's Alphabetic or
/// Numeric property, which depends on `c` alone.
#[verifier::external_body]
fn is_alphanumeric(c: char) -> (r: bool)
    ensures
        r == alphanumeric(c),
{
    c.is_alphanumeric()
}

/// Whether `name` may be a user's name: not empty, and alphanumeric throughout.
pub fn valid_username(name: &Vec<char>) -> (r: bool)
    ensures
        r == (name@.len() > 0 && forall|i: int| 0 <= i < name@.len() ==> #[trigger] alphanumeric(name@[i])),
{
    if name.len() == 0 {
        return false;
    }
    let mut i: usize = 0;
    while i < name.len()
        invariant
            i <= name@.len(),
            forall|j: int| 0 <= j < i ==> #[trigger] alphanumeric(name@[j]),
        decreases name@.len() - i,
    {
        if !is_alphanumeric(name[i]) {
            return false;
        }
        i = i + 1;
    }
    true
}

/// A line of text for the connection `to`.
#[derive(Debug)]
pub struct Outgoing {
    pub to: u64,
    pub text: Vec<u8>,
}

/// Outgoing lines as (connection, text) pairs.
pub open spec fn lines(o: Seq<Outgoing>) -> Seq<(u64, Seq<u8>)> {
    o.map_values(|x: Outgoing| (x.to, x.text@))
}

/// The names of `ms` joined with `, `.
pub open spec fn joined(ms: Seq<(Vec<u8>, u64)>) -> Seq<u8>
    decreases ms.len(),
{
    if ms.len() == 0 {
        seq![]
    } else if ms.len() == 1 {
        ms[0].0@
    } else {
        joined(ms.drop_last()) + seq![44u8, 32u8] + ms.last().0@
    }
}

/// `line` for each member of `ms`, in order, but those named `skip`.
pub open spec fn broadcast(ms: Seq<(Vec<u8>, u64)>, skip: Seq<u8>, line: Seq<u8>) -> Seq<(u64, Seq<u8>)>
    decreases ms.len(),
{
    if ms.len() == 0 {
        seq![]
    } else {
        let prev = broadcast(ms.drop_last(), skip, line);
        if ms.last().0@ == skip {
            prev
        } else {
            prev.push((ms.last().1, line))
        }
    }
}

/// `* The room contains: ` (the text before the member list).
pub open spec fn contains_prefix() -> Seq<u8> {
    seq![42u8, 32u8, 84u8, 104u8, 101u8, 32u8, 114u8, 111u8, 111u8, 109u8, 32u8, 99u8, 111u8, 110u8, 116u8,
        97u8, 105u8, 110u8, 115u8, 58u8, 32u8]
}

/// ` has joined the room` followed by a newline.
pub open spec fn joined_suffix() -> Seq<u8> {
    seq![32u8, 104u8, 97u8, 115u8, 32u8, 106u8, 111u8, 105u8, 110u8, 101u8, 100u8, 32u8, 116u8, 104u8, 101u8,
        32u8, 114u8, 111u8, 111u8, 109u8, 10u8]
}

/// ` has left the room` followed by a newline.
pub open spec fn left_suffix() -> Seq<u8> {
    seq![32u8, 104u8, 97u8, 115u8, 32u8, 108u8, 101u8, 102u8, 116u8, 32u8, 116u8, 104u8, 101u8, 32u8, 114u8,
        111u8, 111u8, 109u8, 10u8]
}

/// Whether a member is named `name`.
pub open spec fn has_member(ms: Seq<(Vec<u8>, u64)>, name: Seq<u8>) -> bool {
    exists|i: int| 0 <= i < ms.len() && #[trigger] ms[i].0@ == name
}

/// The users in a chat room: each name with its connection, in order of joining.
#[derive(Debug)]
pub struct Room {
    pub members: Vec<(Vec<u8>, u64)>,
}

fn push_bytes(out: &mut Vec<u8>, b: &[u8])
    ensures
        final(out)@ == old(out)@ + b@,
{
    let mut i: usize = 0;
    while i < b.len()
        invariant
            i <= b@.len(),
            out@ == old(out)@ + b@.subrange(0, i as int),
        decreases b@.len() - i,
    {
        out.push(b[i]);
        i = i + 1;
        assert(out@ =~= old(out)@ + b@.subrange(0, i as int));
    }
    assert(b@.subrange(0, b@.len() as int) =~= b@);
}

/// Sends `line` to each member of `ms` not named `skip`, in order.
fn send_all(ms: &Vec<(Vec<u8>, u64)>, skip: &Vec<u8>, line: &Vec<u8>) -> (r: Vec<Outgoing>)
    ensures
        lines(r@) == broadcast(ms@, skip@, line@),
{
    let mut out: Vec<Outgoing> = Vec::new();
    let mut i: usize = 0;
    while i < ms.len()
        invariant
            i <= ms@.len(),
            lines(out@) == broadcast(ms@.take(i as int), skip@, line@),
        decreases ms@.len() - i,
    {
        let ghost o0 = out@;
        proof {
            assert(ms@.take(i + 1).drop_last() =~= ms@.take(i as int));
        }
        if !same_bytes(&ms[i].0, skip) {
            out.push(Outgoing { to: ms[i].1, text: bytes_of(line.as_slice()) });
            assert(lines(out@) =~= lines(o0).push((ms@[i as int].1, line@)));
        }
        i = i + 1;
    }
    assert(ms@.take(ms@.len() as int) =~= ms@);
    out
}

impl Room {
    /// Whether each name is there once at most.
    pub open spec fn wf(&self) -> bool {
        forall|i: int, j: int| 0 <= i < j < self.members@.len() ==> self.members@[i].0@ != self.members@[j].0@
    }

    /// An empty room.
    pub fn new() -> (r: Self)
        ensures
            r.wf(),
            r.members@.len() == 0,
    {
        Room { members: Vec::new() }
    }

    /// The names of the members joined with `, `.
    fn member_list(&self) -> (r: Vec<u8>)
        ensures
            r@ == joined(self.members@),
    {
        let mut out: Vec<u8> = Vec::new();
        let mut i: usize = 0;
        while i < self.members.len()
            invariant
                i <= self.members@.len(),
                out@ == joined(self.members@.take(i as int)),
            decreases self.members@.len() - i,
        {
            proof {
                assert(self.members@.take(i + 1).drop_last() =~= self.members@.take(i as int));
            }
            if i > 0 {
                let sep: [u8; 2] = [44u8, 32u8];
                push_bytes(&mut out, &sep);
            }
            push_bytes(&mut out, self.members[i].0.as_slice());
            proof {
                if i == 0 {
                    assert(out@ =~= self.members@[0].0@);
                }
            }
            i = i + 1;
        }
        assert(self.members@.take(self.members@.len() as int) =~= self.members@);
        out
    }

    /// User `name` joins on connection `id`.
    ///
    /// The newcomer is told who is in the room; then `name` is in the room on
    /// connection `id` (in place of an earlier connection under that name), and
    /// every other member is told that `name` has joined.
    pub fn join(&mut self, name: Vec<u8>, id: u64) -> (r: Vec<Outgoing>)
        requires
            old(self).wf(),
        ensures
            final(self).wf(),
            lines(r@) == seq![(id, contains_prefix() + joined(old(self).members@) + seq![10u8])]
                + broadcast(final(self).members@, name@, seq![42u8, 32u8] + name@ + joined_suffix()),
            has_member(old(self).members@, name@) ==> exists|i: int|
                0 <= i < old(self).members@.len() && #[trigger] old(self).members@[i].0@ == name@
                    && final(self).members@.len() == old(self).members@.len()
                    && (forall|j: int| 0 <= j < old(self).members@.len() && j != i ==> final(self).members@[j] == old(self).members@[j])
                    && final(self).members@[i].0@ == name@ && final(self).members@[i].1 == id,
            !has_member(old(self).members@, name@) ==> final(self).members@.len() == old(self).members@.len() + 1
                && final(self).members@.drop_last() == old(self).members@
                && final(self).members@.last().0@ == name@ && final(self).members@.last().1 == id,
    {
        let mut first: Vec<u8> = Vec::new();
        let prefix: [u8; 21] = [42u8, 32u8, 84u8, 104u8, 101u8, 32u8, 114u8, 111u8, 111u8, 109u8, 32u8, 99u8,
            111u8, 110u8, 116u8, 97u8, 105u8, 110u8, 115u8, 58u8, 32u8];
        push_bytes(&mut first, &prefix);
        let list = self.member_list();
        push_bytes(&mut first, list.as_slice());
        first.push(10u8);
        assert(first@ =~= contains_prefix() + joined(old(self).members@) + seq![10u8]);
        let mut notice: Vec<u8> = Vec::new();
        notice.push(42u8);
        notice.push(32u8);
        push_bytes(&mut notice, name.as_slice());
        let suffix: [u8; 21] = [32u8, 104u8, 97u8, 115u8, 32u8, 106u8, 111u8, 105u8, 110u8, 101u8, 100u8, 32u8,
            116u8, 104u8, 101u8, 32u8, 114u8, 111u8, 111u8, 109u8, 10u8];
        push_bytes(&mut notice, &suffix);
        assert(notice@ =~= seq![42u8, 32u8] + name@ + joined_suffix());

        let key = bytes_of(name.as_slice());
        let mut i: usize = 0;
        while i < self.members.len() && !same_bytes(&self.members[i].0, &name)
            invariant
                i <= self.members@.len(),
                self.members@ == old(self).members@,
                old(self).wf(),
                forall|j: int| 0 <= j < i ==> self.members@[j].0@ != name@,
            decreases self.members@.len() - i,
        {
            i = i + 1;
        }
        if i < self.members.len() {
            let ghost m0 = self.members@;
            self.members[i] = (name, id);
            proof {
                let m = self.members@;
                assert forall|a: int, b: int| 0 <= a < b < m.len() implies m[a].0@ != m[b].0@ by {
                    assert(m0[a].0@ != m0[b].0@);
                }
            }
        } else {
            self.members.push((name, id));
            proof {
                let m = self.members@;
                assert(m.drop_last() =~= old(self).members@);
                assert forall|a: int, b: int| 0 <= a < b < m.len() implies m[a].0@ != m[b].0@ by {
                    if b < old(self).members@.len() {
                        assert(old(self).members@[a].0@ != old(self).members@[b].0@);
                    }
                }
            }
        }
        let rest = send_all(&self.members, &key, &notice);
        let mut out: Vec<Outgoing> = Vec::new();
        out.push(Outgoing { to: id, text: first });
        let ghost o0 = out@;
        let mut rest = rest;
        out.append(&mut rest);
        assert(lines(out@) =~= seq![(id, contains_prefix() + joined(old(self).members@) + seq![10u8])]
            + broadcast(self.members@, key@, notice@));
        out
    }

    /// User `name` says `text`: every member of another name gets
    /// `[name] text` on a line.
    pub fn say(&self, name: &Vec<u8>, text: &Vec<u8>) -> (r: Vec<Outgoing>)
        ensures
            lines(r@) == broadcast(self.members@, name@, seq![91u8] + name@ + seq![93u8, 32u8] + text@ + seq![10u8]),
    {
        let mut line: Vec<u8> = Vec::new();
        line.push(91u8);
        push_bytes(&mut line, name.as_slice());
        line.push(93u8);
        line.push(32u8);
        push_bytes(&mut line, text.as_slice());
        line.push(10u8);
        assert(line@ =~= seq![91u8] + name@ + seq![93u8, 32u8] + text@ + seq![10u8]);
        send_all(&self.members, name, &line)
    }

    /// User `name` leaves: if it is in the room, it is taken out and every
    /// remaining member is told; otherwise nothing happens.
    pub fn leave(&mut self, name: &Vec<u8>) -> (r: Vec<Outgoing>)
        requires
            old(self).wf(),
        ensures
            final(self).wf(),
            !has_member(old(self).members@, name@) ==> final(self).members@ == old(self).members@ && r@.len() == 0,
            has_member(old(self).members@, name@) ==> exists|i: int|
                0 <= i < old(self).members@.len() && #[trigger] old(self).members@[i].0@ == name@
                    && final(self).members@ == old(self).members@.remove(i)
                    && lines(r@) == broadcast(final(self).members@, seq![], seq![42u8, 32u8] + name@ + left_suffix()),
    {
        let mut i: usize = 0;
        while i < self.members.len()
            invariant
                i <= self.members@.len(),
                self.members@ == old(self).members@,
                old(self).wf(),
                forall|j: int| 0 <= j < i ==> self.members@[j].0@ != name@,
            decreases self.members@.len() - i,
        {
            if same_bytes(&self.members[i].0, name) {
                let ghost m0 = self.members@;
                self.members.remove(i);
                proof {
                    let m = self.members@;
                    assert(m =~= m0.remove(i as int));
                    assert forall|a: int, b: int| 0 <= a < b < m.len() implies m[a].0@ != m[b].0@ by {
                        let a0 = if a < i { a } else { a + 1 };
                        let b0 = if b < i { b } else { b + 1 };
                        assert(m[a] == m0[a0] && m[b] == m0[b0]);
                        assert(m0[a0].0@ != m0[b0].0@);
                    }
                }
                let mut notice: Vec<u8> = Vec::new();
                notice.push(42u8);
                notice.push(32u8);
                push_bytes(&mut notice, name.as_slice());
                let suffix: [u8; 19] = [32u8, 104u8, 97u8, 115u8, 32u8, 108u8, 101u8, 102u8, 116u8, 32u8, 116u8,
                    104u8, 101u8, 32u8, 114u8, 111u8, 111u8, 109u8, 10u8];
                push_bytes(&mut notice, &suffix);
                assert(notice@ =~= seq![42u8, 32u8] + name@ + left_suffix());
                let nobody: Vec<u8> = Vec::new();
                let r = send_all(&self.members, &nobody, &notice);
                return r;
            }
            i = i + 1;
        }
        Vec::new()
    }
}

} // verus!

use vstd::prelude::*;

use crate::arith::{is_prime, num_is_prime};

verus! {

/// The answer to one request line.
#[derive(Debug, Clone, Copy, PartialEq, Eq, Structural)]
pub enum ProtoResult {
    IsPrime,
    IsNotPrime,
    Malformed,
}

/// The one method a request may name.
pub open spec fn is_prime_method() -> Seq<char> {
    seq!['i', 's', 'P', 'r', 'i', 'm', 'e']
}

/// The answer to a request: `request` is none for a line that is no JSON
/// object with a string `method` and a number `number`, and otherwise holds the
/// method and the number where it is a 64-bit integer.
pub open spec fn answer(request: Option<(Seq<char>, Option<i64>)>) -> ProtoResult {
    match request {
        None => ProtoResult::Malformed,
        Some((method, number)) => if method != is_prime_method() {
            ProtoResult::Malformed
        } else {
            match number {
                Some(n) => if is_prime(n as int) {
                    ProtoResult::IsPrime
                } else {
                    ProtoResult::IsNotPrime
                },
                None => ProtoResult::IsNotPrime,
            }
        },
    }
}

/// Answers a request, as `answer` says.
pub fn do_math_and_stuff(request: Option<(String, Option<i64>)>) -> (r: ProtoResult)
    ensures
        r == answer(
            match request {
                Some((m, n)) => Some((m@, n)),
                None => None,
            },
        ),
{
    match request {
        None => ProtoResult::Malformed,
        Some((method, number)) => {
            let expected = "isPrime".to_owned();
            proof {
                reveal_strlit("isPrime");
            }
            assert(expected@ =~= is_prime_method());
            if method != expected {
                return ProtoResult::Malformed;
            }
            match number {
                Some(n) => if num_is_prime(n) {
                    ProtoResult::IsPrime
                } else {
                    ProtoResult::IsNotPrime
                },
                None => ProtoResult::IsNotPrime,
            }
        },
    }
}

/// The line sent back for an answer.
pub open spec fn response_line(r: ProtoResult) -> Seq<u8> {
    match r {
        ProtoResult::IsPrime => seq![
            123u8, 34u8, 109u8, 101u8, 116u8, 104u8, 111u8, 100u8, 34u8, 58u8, 34u8, 105u8, 115u8, 80u8, 114u8,
            105u8, 109u8, 101u8, 34u8, 44u8, 34u8, 112u8, 114u8, 105u8, 109u8, 101u8, 34u8, 58u8, 116u8, 114u8,
            117u8, 101u8, 125u8, 10u8
        ],
        ProtoResult::IsNotPrime => seq![
            123u8, 34u8, 109u8, 101u8, 116u8, 104u8, 111u8, 100u8, 34u8, 58u8, 34u8, 105u8, 115u8, 80u8, 114u8,
            105u8, 109u8, 101u8, 34u8, 44u8, 34u8, 112u8, 114u8, 105u8, 109u8, 101u8, 34u8, 58u8, 102u8, 97u8,
            108u8, 115u8, 101u8, 125u8, 10u8
        ],
        ProtoResult::Malformed => seq![109u8, 97u8, 108u8, 102u8, 111u8, 114u8, 109u8, 101u8, 100u8, 10u8],
    }
}

fn push_all(out: &mut Vec<u8>, b: &[u8])
    ensures
        final(out)@ == old(out)@ + b@,
{
    let mut i: usize = 0;
    while i < b.len()
        invariant
            i <= b@.len(),
            out@ == old(out)@ + b@.subrange(0, i as int),
        decreases b@.len() - i,
    {
        out.push(b[i]);
        i = i + 1;
        assert(out@ =~= old(out)@ + b@.subrange(0, i as int));
    }
    assert(b@.subrange(0, b@.len() as int) =~= b@);
}

/// The line sent back for an answer: a JSON object with the method and whether
/// the number is prime, or `malformed`.
pub fn response(r: ProtoResult) -> (out: Vec<u8>)
    ensures
        out@ == response_line(r),
{
    let mut out: Vec<u8> = Vec::new();
    match r {
        ProtoResult::Malformed => {
            let text: [u8; 10] = [109u8, 97u8, 108u8, 102u8, 111u8, 114u8, 109u8, 101u8, 100u8, 10u8];
            push_all(&mut out, &text);
            assert(out@ =~= response_line(r));
        },
        _ => {
            let head: [u8; 28] = [
                123u8, 34u8, 109u8, 101u8, 116u8, 104u8, 111u8, 100u8, 34u8, 58u8, 34u8, 105u8, 115u8, 80u8,
                114u8, 105u8, 109u8, 101u8, 34u8, 44u8, 34u8, 112u8, 114u8, 105u8, 109u8, 101u8, 34u8, 58u8,
            ];
            push_all(&mut out, &head);
            if r == ProtoResult::IsPrime {
                let tail: [u8; 6] = [116u8, 114u8, 117u8, 101u8, 125u8, 10u8];
                push_all(&mut out, &tail);
            } else {
                let tail: [u8; 7] = [102u8, 97u8, 108u8, 115u8, 101u8, 125u8, 10u8];
                push_all(&mut out, &tail);
            }
            assert(out@ =~= response_line(r));
        },
    }
    out
}

} // verus!

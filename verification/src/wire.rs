//! The byte stream between two hops: one message per line, after a fixed
//! first line by which a backend announces itself.

use vstd::prelude::*;

verus! {

/// The byte that ends a frame.
pub const NEWLINE: u8 = 10;

/// The line that a backend writes before its first frame:
/// `nxQh6wsIiiFomXWE+7HQhQ==` and a newline, 25 bytes.
pub const HANDSHAKE: [u8; 25] = [
    110,
    120,
    81,
    104,
    54,
    119,
    115,
    73,
    105,
    105,
    70,
    111,
    109,
    88,
    87,
    69,
    43,
    55,
    72,
    81,
    104,
    81,
    61,
    61,
    10,
];

/// True when `line` is the handshake line, byte for byte.
pub fn is_handshake(line: &[u8]) -> (ok: bool)
    ensures
        ok == (line@ == HANDSHAKE@),
{
    if line.len() != 25 {
        return false;
    }
    let mut i: usize = 0;
    while i < 25
        invariant
            0 <= i <= 25,
            line@.len() == 25,
            forall|k: int| 0 <= k < i ==> line@[k] == HANDSHAKE@[k],
        decreases 25 - i,
    {
        if line[i] != HANDSHAKE[i] {
            return false;
        }
        i += 1;
    }
    assert(line@ =~= HANDSHAKE@);
    true
}

/// The handshake line, to be written before the first frame.
pub fn handshake() -> (line: Vec<u8>)
    ensures
        line@ == HANDSHAKE@,
{
    let mut line: Vec<u8> = Vec::new();
    let mut i: usize = 0;
    while i < 25
        invariant
            0 <= i <= 25,
            line@.len() == i,
            forall|k: int| 0 <= k < i ==> line@[k] == HANDSHAKE@[k],
        decreases 25 - i,
    {
        line.push(HANDSHAKE[i]);
        i += 1;
    }
    assert(line@ =~= HANDSHAKE@);
    line
}

/// The text holds no newline, so that it can be one frame.
pub open spec fn one_line(text: Seq<u8>) -> bool {
    forall|i: int| 0 <= i < text.len() ==> #[trigger] text[i] != NEWLINE
}

/// The frame of a message: its text and a newline.
pub fn frame(text: Vec<u8>) -> (line: Vec<u8>)
    ensures
        line@ == text@.push(NEWLINE),
{
    let mut line = text;
    line.push(NEWLINE);
    line
}

/// Where the first frame of `buffer` ends: the position after its newline,
/// or `None` while no whole frame has arrived.
pub fn frame_end(buffer: &[u8]) -> (end: Option<usize>)
    ensures
        match end {
            Some(n) => 0 < n <= buffer@.len() && buffer@[n - 1] == NEWLINE && one_line(
                buffer@.subrange(0, n - 1),
            ),
            None => one_line(buffer@),
        },
{
    let mut i: usize = 0;
    while i < buffer.len()
        invariant
            0 <= i <= buffer@.len(),
            forall|k: int| 0 <= k < i ==> #[trigger] buffer@[k] != NEWLINE,
        decreases buffer@.len() - i,
    {
        if buffer[i] == NEWLINE {
            return Some(i + 1);
        }
        i += 1;
    }
    None
}

/// The text of a frame: the line without the newline that ends it, where
/// the line ends in a newline and holds no other.
pub open spec fn unframed(line: Seq<u8>) -> Option<Seq<u8>> {
    if line.len() > 0 && line.last() == NEWLINE && one_line(line.drop_last()) {
        Some(line.drop_last())
    } else {
        None
    }
}

/// Takes a frame apart. `None` where the line does not end in a newline or
/// holds another one.
pub fn unframe(line: &[u8]) -> (text: Option<Vec<u8>>)
    ensures
        match text {
            Some(t) => unframed(line@) == Some(t@),
            None => unframed(line@) is None,
        },
{
    match frame_end(line) {
        Some(end) => {
            if end == line.len() {
                let mut text: Vec<u8> = Vec::new();
                let mut i: usize = 0;
                while i < end - 1
                    invariant
                        0 <= i <= end - 1,
                        end <= line@.len(),
                        text@ == line@.subrange(0, i as int),
                    decreases end - 1 - i,
                {
                    text.push(line[i]);
                    assert(text@ =~= line@.subrange(0, i + 1));
                    i += 1;
                }
                assert(text@ =~= line@.drop_last());
                Some(text)
            } else {
                proof {
                    assert(line@.drop_last()[end - 1] == NEWLINE);
                }
                None
            }
        },
        None => {
            proof {
                if line@.len() > 0 {
                    assert(line@[line@.len() - 1] != NEWLINE);
                }
            }
            None
        },
    }
}

/// Taking apart the frame of a text of one line gives the text back, and
/// whatever comes apart is the frame of what it gives.
pub proof fn lemma_frame_round_trip(text: Seq<u8>, line: Seq<u8>)
    ensures
        one_line(text) ==> unframed(text.push(NEWLINE)) == Some(text),
        unframed(line) matches Some(t) ==> line == t.push(NEWLINE),
{
    assert(text.push(NEWLINE).drop_last() =~= text);
    if unframed(line) is Some {
        assert(line =~= line.drop_last().push(NEWLINE));
    }
}

} // verus!

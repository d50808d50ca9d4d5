//! The file of a terminal recording: a run of records, each written as its
//! length in four bytes, lowest first, and then that many bytes. What a
//! record holds is shown with its unprintable bytes as red digits.

use vstd::prelude::*;

verus! {

/// The number that four bytes stand for, the lowest byte first.
pub open spec fn le32(b: Seq<u8>) -> int {
    b[0] as int + 256 * (b[1] as int) + 65536 * (b[2] as int) + 16777216 * (b[3] as int)
}

/// Reads the first four bytes of the buffer as a number, the lowest byte
/// first.
fn read_u32_le(buf: &[u8]) -> (n: u32)
    requires
        buf@.len() >= 4,
    ensures
        n == le32(buf@),
{
    let b0: u32 = buf[0] as u32;
    let b1: u32 = buf[1] as u32;
    let b2: u32 = buf[2] as u32;
    let b3: u32 = buf[3] as u32;
    b0 + 256 * b1 + 65536 * b2 + 16777216 * b3
}

/// Why a recording cannot be taken apart.
#[derive(Clone, Copy, Debug, PartialEq, Eq, Structural)]
pub enum RecordError {
    /// A record is announced to be longer than what is left of the file.
    Truncated,
}

/// The records of a file, from `pos` on. Fewer than four bytes at the end
/// are passed over. `None` where a record is longer than what is left.
pub open spec fn records(data: Seq<u8>, pos: int) -> Option<Seq<Seq<u8>>>
    decreases data.len() - pos,
{
    if pos < 0 || pos + 4 > data.len() {
        Some(Seq::empty())
    } else {
        let len = le32(data.subrange(pos, pos + 4));
        if len < 0 || pos + 4 + len > data.len() {
            None
        } else {
            match records(data, pos + 4 + len) {
                Some(rest) => Some(seq![data.subrange(pos + 4, pos + 4 + len)] + rest),
                None => None,
            }
        }
    }
}

/// Takes a recording apart into the bytes of its records.
pub fn split_records(data: &[u8]) -> (res: Result<Vec<Vec<u8>>, RecordError>)
    ensures
        match res {
            Ok(list) => records(data@, 0) == Some(list.deep_view()),
            Err(e) => e == RecordError::Truncated && records(data@, 0) is None,
        },
{
    let mut list: Vec<Vec<u8>> = Vec::new();
    let mut pos: usize = 0;
    while data.len() - pos >= 4
        invariant
            0 <= pos <= data@.len(),
            records(data@, 0) == match records(data@, pos as int) {
                Some(rest) => Some(list.deep_view() + rest),
                None => None,
            },
        decreases data@.len() - pos,
    {
        let ghost done = list.deep_view();
        let head = vstd::slice::slice_subrange(data, pos, pos + 4);
        let len = read_u32_le(head) as usize;
        let left = data.len() - pos - 4;
        if len > left {
            return Err(RecordError::Truncated);
        }
        let begin = pos + 4;
        let end = begin + len;
        let mut record: Vec<u8> = Vec::new();
        let mut i = begin;
        while i < end
            invariant
                begin <= i <= end <= data@.len(),
                record@ == data@.subrange(begin as int, i as int),
            decreases end - i,
        {
            record.push(data[i]);
            assert(record@ =~= data@.subrange(begin as int, i + 1));
            i += 1;
        }
        assert(record.deep_view() =~= data@.subrange(begin as int, end as int));
        list.push(record);
        proof {
            let rest = records(data@, end as int);
            assert(list.deep_view() =~= done.push(data@.subrange(begin as int, end as int)));
            if rest is Some {
                assert(done + (seq![data@.subrange(begin as int, end as int)] + rest.unwrap())
                    =~= list.deep_view() + rest.unwrap());
            }
        }
        pos = end;
    }
    proof {
        assert(list.deep_view() + Seq::<Seq<u8>>::empty() =~= list.deep_view());
    }
    Ok(list)
}

/// Whether a byte is shown as itself: the printable range of ASCII.
pub open spec fn printable(b: u8) -> bool {
    0x20 <= b <= 0x7e
}

/// The escape sequence that turns what follows red.
pub open spec fn red_mark() -> Seq<u8> {
    seq![0x1bu8, 0x5bu8, 0x33u8, 0x38u8, 0x3bu8, 0x35u8, 0x3bu8, 0x31u8, 0x6du8]
}

/// The escape sequence that gives what follows the terminal's own colour.
pub open spec fn plain_mark() -> Seq<u8> {
    seq![0x1bu8, 0x5bu8, 0x33u8, 0x39u8, 0x6du8]
}

/// Calls `termion::color::Red::fg_str`, whose text is the escape character,
/// `[38;5;`, the colour's number `1` and `m`.
#[verifier::external_body]
fn red() -> (bytes: Vec<u8>)
    ensures
        bytes@ == red_mark(),
{
    termion::color::Red.fg_str().as_bytes().to_vec()
}

/// Calls `termion::color::Reset::fg_str`, whose text is the escape
/// character and `[39m`.
#[verifier::external_body]
fn plain() -> (bytes: Vec<u8>)
    ensures
        bytes@ == plain_mark(),
{
    termion::color::Reset.fg_str().as_bytes().to_vec()
}

/// The digit that stands for a number below sixteen, in lower case.
pub open spec fn hex_digit(n: int) -> u8 {
    if n < 10 {
        (0x30 + n) as u8
    } else {
        (0x61 + n - 10) as u8
    }
}

/// The two digits of a byte, the higher first.
pub open spec fn hex(b: u8) -> Seq<u8> {
    seq![hex_digit(b as int / 16), hex_digit(b as int % 16)]
}

/// How the bytes from `pos` on are shown. A printable byte stands for
/// itself. Every other byte is written as its two digits, and each longest
/// run of such bytes stands in red. `marked` says that the byte before `pos`
/// was written in red.
pub open spec fn shown(data: Seq<u8>, pos: int, marked: bool) -> Seq<u8>
    decreases data.len() - pos,
{
    if pos < 0 || pos >= data.len() {
        if marked {
            plain_mark()
        } else {
            Seq::empty()
        }
    } else if printable(data[pos]) {
        (if marked {
            plain_mark()
        } else {
            Seq::empty()
        }) + seq![data[pos]] + shown(data, pos + 1, false)
    } else {
        (if marked {
            Seq::empty()
        } else {
            red_mark()
        }) + hex(data[pos]) + shown(data, pos + 1, true)
    }
}

fn digit(n: u8) -> (d: u8)
    requires
        n < 16,
    ensures
        d == hex_digit(n as int),
{
    if n < 10 {
        0x30 + n
    } else {
        0x61 + (n - 10)
    }
}

/// The bytes that show `data` on a terminal: text as it is, everything
/// else as red digits.
pub fn color_coded(data: &[u8]) -> (text: Vec<u8>)
    ensures
        text@ == shown(data@, 0, false),
{
    let mut text: Vec<u8> = Vec::new();
    let mut marked = false;
    let mut i: usize = 0;
    while i < data.len()
        invariant
            0 <= i <= data@.len(),
            shown(data@, 0, false) == text@ + shown(data@, i as int, marked),
        decreases data@.len() - i,
    {
        let ghost before = text@;
        let b = data[i];
        if 0x20 <= b && b <= 0x7e {
            if marked {
                let mark = plain();
                text.extend_from_slice(mark.as_slice());
            }
            text.push(b);
            assert(text@ + shown(data@, i + 1, false) =~= before + shown(data@, i as int, marked));
            marked = false;
        } else {
            if !marked {
                let mark = red();
                text.extend_from_slice(mark.as_slice());
            }
            text.push(digit(b / 16));
            text.push(digit(b % 16));
            assert(text@ + shown(data@, i + 1, true) =~= before + shown(data@, i as int, marked));
            marked = true;
        }
        i += 1;
    }
    if marked {
        let mark = plain();
        text.extend_from_slice(mark.as_slice());
    }
    assert(text@ =~= shown(data@, 0, false));
    text
}

} // verus!

//! Parsing of program images from hex text: each line carries eight hex
//! digits per 32-bit word, several words per line packed most significant
//! word first, and the lines concatenate to form the image.

use vstd::prelude::*;

verus! {

/// A program image: the 32-bit words that seed memory before simulation.
pub struct Binary {
    pub words: Vec<u32>,
}

/// Why a binary could not be loaded.
#[derive(Clone, Copy, Debug, PartialEq, Eq, Structural)]
pub enum BinaryError {
    /// The image could not be read.
    Io,
    /// The image was not valid text.
    Utf8,
    /// A word was not made of hex digits.
    ParseInt,
}

/// Whether `b` is the ASCII code of a hex digit.
pub open spec fn is_hex_digit(b: u8) -> bool {
    (0x30 <= b && b <= 0x39) || (0x61 <= b && b <= 0x66) || (0x41 <= b && b <= 0x46)
}

/// The value of the hex digit with ASCII code `b`.
pub open spec fn hex_val(b: u8) -> int {
    if 0x30 <= b && b <= 0x39 {
        b - 0x30
    } else if 0x61 <= b && b <= 0x66 {
        b - 0x61 + 10
    } else {
        b - 0x41 + 10
    }
}

/// `16^n`.
pub open spec fn pow16(n: nat) -> int
    decreases n,
{
    if n == 0 {
        1
    } else {
        16 * pow16((n - 1) as nat)
    }
}

/// The value of the hex digits `line[start..end]`, most significant digit
/// first.
pub open spec fn hex_chunk_val(line: Seq<u8>, start: int, end: int) -> int
    decreases end - start,
{
    if start >= end {
        0
    } else {
        hex_chunk_val(line, start, end - 1) * 16 + hex_val(line[end - 1])
    }
}

/// A chunk of up to eight hex digits has a value below `16^8`, so it fits a
/// 32-bit word.
pub proof fn lemma_hex_chunk_val_bound(line: Seq<u8>, start: int, end: int)
    requires
        forall|i: int| start <= i < end ==> is_hex_digit(#[trigger] line[i]),
        0 <= start,
        end <= line.len(),
    ensures
        0 <= hex_chunk_val(line, start, end),
        end > start ==> hex_chunk_val(line, start, end) < pow16((end - start) as nat),
    decreases end - start,
{
    if start < end {
        lemma_hex_chunk_val_bound(line, start, end - 1);
        let n = (end - start) as nat;
        assert(pow16(n) == 16 * pow16((n - 1) as nat));
        assert(is_hex_digit(line[end - 1]));
        assert(hex_val(line[end - 1]) <= 15);
        if end - 1 > start {
            assert(hex_chunk_val(line, start, end - 1) <= pow16((n - 1) as nat) - 1);
        } else {
            assert(hex_chunk_val(line, start, end - 1) == 0);
            assert(pow16((n - 1) as nat) == 1);
        }
    }
}

/// How many eight-digit chunks a line of `len` digits splits into (the last
/// chunk may be shorter).
pub open spec fn line_chunks(len: int) -> int {
    len / 8 + if len % 8 == 0 {
        0int
    } else {
        1int
    }
}

/// The end of chunk `k` of a line of `len` digits.
pub open spec fn chunk_end(len: int, k: int) -> int {
    if 8 * k + 8 <= len {
        8 * k + 8
    } else {
        len
    }
}

/// The words one line contributes, in order: its chunks are taken from the
/// end of the line backwards, so the most significant word of the line comes
/// last in the image.
pub open spec fn line_words(line: Seq<u8>) -> Seq<u32> {
    let nc = line_chunks(line.len() as int);
    Seq::new(
        nc as nat,
        |j: int|
            hex_chunk_val(line, 8 * (nc - 1 - j), chunk_end(line.len() as int, nc - 1 - j)) as u32,
    )
}

/// Whether every byte of the line is a hex digit.
pub open spec fn line_ok(line: Seq<u8>) -> bool {
    forall|i: int| 0 <= i < line.len() ==> is_hex_digit(#[trigger] line[i])
}

/// The words the first `n` lines contribute, concatenated in line order.
pub open spec fn words_of_lines(lines: Seq<Seq<u8>>, n: int) -> Seq<u32>
    decreases n,
{
    if n <= 0 {
        Seq::empty()
    } else {
        words_of_lines(lines, n - 1) + line_words(lines[n - 1])
    }
}

/// The value of the hex digit with ASCII code `b`, or `None` when `b` is not
/// a hex digit.
fn hex_digit_value(b: u8) -> (r: Option<u32>)
    ensures
        r is Some <==> is_hex_digit(b),
        r matches Some(v) ==> v == hex_val(b),
{
    if 0x30 <= b && b <= 0x39 {
        Some((b - 0x30) as u32)
    } else if 0x61 <= b && b <= 0x66 {
        Some((b - 0x61) as u32 + 10)
    } else if 0x41 <= b && b <= 0x46 {
        Some((b - 0x41) as u32 + 10)
    } else {
        None
    }
}

impl Binary {
    /// Parse a program image from its hex lines.  Each line is split into
    /// eight-digit chunks from its start; the chunks are read back to front,
    /// each as one big-endian hex word; the lines contribute their words in
    /// order.  Fails exactly when some byte of some line is not a hex digit.
    pub fn from_hex_lines(lines: &Vec<Vec<u8>>) -> (r: Result<Binary, BinaryError>)
        ensures
            r is Ok <==> (forall|i: int| 0 <= i < lines@.len() ==> line_ok(#[trigger] lines@[i]@)),
            r matches Ok(b) ==> b.words@ == words_of_lines(
                Seq::new(lines@.len(), |i: int| lines@[i]@),
                lines@.len() as int,
            ),
            r matches Err(e) ==> e == BinaryError::ParseInt,
    {
        let ghost lseq = Seq::new(lines@.len(), |i: int| lines@[i]@);
        let mut words: Vec<u32> = Vec::new();
        let nlines = lines.len();
        let mut li: usize = 0;
        while li < nlines
            invariant
                nlines == lines@.len(),
                lseq == Seq::new(lines@.len(), |i: int| lines@[i]@),
                li <= nlines,
                forall|i: int| 0 <= i < li ==> line_ok(#[trigger] lines@[i]@),
                words@ == words_of_lines(lseq, li as int),
            decreases nlines - li,
        {
            let line = &lines[li];
            let len = line.len();
            let nc = len / 8 + if len % 8 == 0 {
                0
            } else {
                1
            };
            let ghost prev_words = words@;
            let mut k = nc;
            while k > 0
                invariant
                    nlines == lines@.len(),
                    li < nlines,
                    line@ == lines@[li as int]@,
                    len == line@.len(),
                    nc == line_chunks(len as int),
                    k <= nc,
                    forall|i: int| 8 * k <= i < len ==> is_hex_digit(#[trigger] line@[i]),
                    words@ == prev_words + line_words(line@).take(nc - k),
                decreases k,
            {
                k = k - 1;
                let start = 8 * k;
                proof {
                    vstd::arithmetic::div_mod::lemma_fundamental_div_mod(len as int, 8);
                    assert(8 * k < len);
                }
                let end = if len - start >= 8 {
                    start + 8
                } else {
                    len
                };
                let mut value: u32 = 0;
                let mut p = start;
                while p < end
                    invariant
                        nlines == lines@.len(),
                        li < nlines,
                        line@ == lines@[li as int]@,
                        len == line@.len(),
                        start <= p <= end,
                        end == chunk_end(len as int, k as int),
                        start == 8 * k,
                        end <= len,
                        end - start <= 8,
                        forall|i: int| start <= i < p ==> is_hex_digit(#[trigger] line@[i]),
                        value == hex_chunk_val(line@, start as int, p as int),
                    decreases end - p,
                {
                    let b = line[p];
                    match hex_digit_value(b) {
                        Some(d) => {
                            proof {
                                lemma_hex_chunk_val_bound(line@, start as int, p as int + 1);
                                lemma_pow16_le_8((p + 1 - start) as nat);
                            }
                            value = value * 16 + d;
                        },
                        None => {
                            proof {
                                assert(lines@[li as int]@ == line@);
                                assert(!is_hex_digit(line@[p as int]));
                                assert(!line_ok(lines@[li as int]@));
                            }
                            return Err(BinaryError::ParseInt);
                        },
                    }
                    p = p + 1;
                }
                words.push(value);
                proof {
                    assert(words@ =~= prev_words + line_words(line@).take(nc - k));
                }
            }
            proof {
                assert(line_ok(line@));
                assert(line_words(line@).take(nc as int) =~= line_words(line@));
                assert(words@ =~= words_of_lines(lseq, li as int + 1));
            }
            li = li + 1;
        }
        Ok(Binary { words })
    }
}

/// `16^n` stays within a 32-bit word for `n` up to 8.
proof fn lemma_pow16_le_8(n: nat)
    requires
        n <= 8,
    ensures
        pow16(n) <= 0x1_0000_0000,
{
    assert(pow16(0) == 1);
    assert(pow16(1) == 16);
    assert(pow16(2) == 0x100);
    assert(pow16(3) == 0x1000);
    assert(pow16(4) == 0x10000);
    assert(pow16(5) == 0x100000);
    assert(pow16(6) == 0x1000000);
    assert(pow16(7) == 0x10000000);
    assert(pow16(8) == 0x1_0000_0000);
    assert(n == 0 || n == 1 || n == 2 || n == 3 || n == 4 || n == 5 || n == 6 || n == 7 || n == 8);
}

}

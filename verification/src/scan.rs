//! Which texts are handed to the JSON reader.
//!
//! The reader counts the digits of a number in 32 bits. A text is handed to
//! it only if, outside strings, the exponent of a number has at most nine
//! digits and no run of digits is longer than a thousand million.

use vstd::prelude::*;
use vstd::utf8::encode_utf8;

verus! {

/// How many digits the exponent of a number may have.
pub const EXPONENT_DIGITS: usize = 9;

/// How many digits may follow each other outside a string.
pub const NUMBER_DIGITS: usize = 1_000_000_000;

/// What is known after a part of a text was scanned.
pub struct Scan {
    /// No run of digits was too long so far.
    pub fine: bool,
    /// The scan stands inside a string.
    pub in_string: bool,
    /// Inside a string, the last byte was a backslash that escapes the next.
    pub escaped: bool,
    /// An `e` or `E` was seen, and after it nothing but signs.
    pub pending: bool,
    /// The digits that are being counted are those of an exponent.
    pub exponent: bool,
    /// How many digits the run that is being counted has.
    pub digits: nat,
}

/// What is known before anything was scanned.
pub open spec fn scan_start() -> Scan {
    Scan {
        fine: true,
        in_string: false,
        escaped: false,
        pending: false,
        exponent: false,
        digits: 0,
    }
}

/// What is known after one more byte. Inside a string only its end is
/// looked for. Outside, digits are counted: as those of an exponent where
/// they follow an `e` or `E` and signs, else as those of a number.
pub open spec fn scan_step(before: Scan, byte: u8) -> Scan {
    if before.in_string {
        Scan {
            fine: before.fine,
            in_string: before.escaped || byte != 0x22,
            escaped: !before.escaped && byte == 0x5c,
            pending: false,
            exponent: false,
            digits: 0,
        }
    } else if 0x30 <= byte <= 0x39 {
        let exponent = before.exponent || before.pending;
        Scan {
            fine: before.fine && before.digits + 1 <= if exponent {
                EXPONENT_DIGITS
            } else {
                NUMBER_DIGITS
            },
            in_string: false,
            escaped: false,
            pending: false,
            exponent,
            digits: before.digits + 1,
        }
    } else {
        Scan {
            fine: before.fine,
            in_string: byte == 0x22,
            escaped: false,
            pending: byte == 0x65 || byte == 0x45 || (before.pending && (byte == 0x2b || byte
                == 0x2d)),
            exponent: false,
            digits: 0,
        }
    }
}

/// What is known after the first `n` bytes.
pub open spec fn scan(bytes: Seq<u8>, n: int) -> Scan
    decreases n,
{
    if n <= 0 || n > bytes.len() {
        scan_start()
    } else {
        scan_step(scan(bytes, n - 1), bytes[n - 1])
    }
}

/// Whether the numbers of a text fit the reader: outside strings, no
/// exponent has more than [`EXPONENT_DIGITS`] digits, and no run of digits
/// is longer than [`NUMBER_DIGITS`].
pub open spec fn numbers_fit(text: Seq<char>) -> bool {
    scan(encode_utf8(text), encode_utf8(text).len() as int).fine
}

/// A run of digits that was too long stays too long.
pub proof fn lemma_scan_stays(bytes: Seq<u8>, from: int, to: int)
    requires
        0 <= from <= to <= bytes.len(),
        !scan(bytes, from).fine,
    ensures
        !scan(bytes, to).fine,
    decreases to - from,
{
    if from < to {
        lemma_scan_stays(bytes, from, to - 1);
    }
}

/// Decides whether the numbers of a text fit the reader.
pub fn check_numbers(text: &str) -> (fit: bool)
    ensures
        fit == numbers_fit(text@),
{
    let bytes = text.as_bytes();
    let mut in_string = false;
    let mut escaped = false;
    let mut pending = false;
    let mut exponent = false;
    let mut digits: usize = 0;
    let mut i: usize = 0;
    while i < bytes.len()
        invariant
            i <= bytes.len(),
            bytes@ == encode_utf8(text@),
            digits <= NUMBER_DIGITS,
            scan(bytes@, i as int) == (Scan {
                fine: true,
                in_string,
                escaped,
                pending,
                exponent,
                digits: digits as nat,
            }),
        decreases bytes.len() - i,
    {
        let byte = bytes[i];
        if in_string {
            let leaves = !escaped && byte == 0x22;
            escaped = !escaped && byte == 0x5c;
            in_string = !leaves;
        } else if 0x30 <= byte && byte <= 0x39 {
            exponent = exponent || pending;
            pending = false;
            let most = if exponent {
                EXPONENT_DIGITS
            } else {
                NUMBER_DIGITS
            };
            if digits >= most {
                proof {
                    assert(!scan(bytes@, i + 1).fine);
                    lemma_scan_stays(bytes@, i + 1, bytes@.len() as int);
                }
                return false;
            }
            digits = digits + 1;
        } else {
            pending = byte == 0x65 || byte == 0x45 || (pending && (byte == 0x2b || byte == 0x2d));
            in_string = byte == 0x22;
            exponent = false;
            digits = 0;
        }
        i += 1;
    }
    true
}

} // verus!

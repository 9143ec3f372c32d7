//! Classification of the daemon's response text.
//!
//! The daemon answers a scan with a short line of text. A response is "clean"
//! exactly when that text holds the marker `OK` and not the marker `FOUND`.
//! The text must be valid UTF-8 to be read at all; both markers are ASCII, so
//! in well-formed UTF-8 a byte-level occurrence of a marker and an occurrence
//! in the decoded text are the same thing, and the contracts speak of bytes.

use vstd::prelude::*;

verus! {

/// The decode error: the response bytes are not valid UTF-8, so no verdict
/// can be read from them.
#[derive(Clone, Copy, Debug, PartialEq, Eq, Structural)]
pub struct DecodeError;

/// A continuation byte: any byte of a multi-byte character after the first.
pub open spec fn utf8_cont(b: u8) -> bool {
    0x80 <= b && b <= 0xBF
}

/// What the second byte of a multi-byte character may hold, given its lead
/// byte: the lead bytes `E0`, `ED`, `F0` and `F4` narrow it to keep out
/// overlong forms, surrogates, and values past the last code point.
pub open spec fn utf8_second_ok(b0: u8, b1: u8) -> bool {
    if b0 == 0xE0 {
        0xA0 <= b1 && b1 <= 0xBF
    } else if b0 == 0xED {
        0x80 <= b1 && b1 <= 0x9F
    } else if b0 == 0xF0 {
        0x90 <= b1 && b1 <= 0xBF
    } else if b0 == 0xF4 {
        0x80 <= b1 && b1 <= 0x8F
    } else {
        utf8_cont(b1)
    }
}

/// How many bytes the first encoded character of `s` takes — 1 to 4 — or 0
/// when `s` does not open with a well-formed character.
pub open spec fn utf8_prefix_len(s: Seq<u8>) -> int {
    if s.len() == 0 {
        0
    } else {
        let b0 = s[0];
        if b0 <= 0x7F {
            1
        } else if 0xC2 <= b0 && b0 <= 0xDF {
            if s.len() >= 2 && utf8_cont(s[1]) {
                2
            } else {
                0
            }
        } else if 0xE0 <= b0 && b0 <= 0xEF {
            if s.len() >= 3 && utf8_second_ok(b0, s[1]) && utf8_cont(s[2]) {
                3
            } else {
                0
            }
        } else if 0xF0 <= b0 && b0 <= 0xF4 {
            if s.len() >= 4 && utf8_second_ok(b0, s[1]) && utf8_cont(s[2]) && utf8_cont(s[3]) {
                4
            } else {
                0
            }
        } else {
            0
        }
    }
}

/// A byte sequence is valid UTF-8 when it is a run of well-formed encoded
/// characters and nothing else.
pub open spec fn is_utf8(s: Seq<u8>) -> bool
    decreases s.len(),
{
    if s.len() == 0 {
        true
    } else {
        let k = utf8_prefix_len(s);
        0 < k <= s.len() && is_utf8(s.skip(k))
    }
}

/// `pat` occurs somewhere in `s` as one contiguous run of bytes.
pub open spec fn contains_seq(s: Seq<u8>, pat: Seq<u8>) -> bool {
    exists|j: int|
        0 <= j && j + pat.len() <= s.len() && #[trigger] s.subrange(j, j + pat.len() as int) == pat
}

/// The bytes of `OK`, the daemon's clean verdict marker.
pub open spec fn ok_marker() -> Seq<u8> {
    seq![0x4fu8, 0x4bu8]
}

/// The bytes of `FOUND`, the marker the daemon prints beside a signature hit.
pub open spec fn found_marker() -> Seq<u8> {
    seq![0x46u8, 0x4fu8, 0x55u8, 0x4eu8, 0x44u8]
}

/// Whether `b` is a continuation byte.
fn cont_byte(b: u8) -> (r: bool)
    ensures
        r == utf8_cont(b),
{
    0x80 <= b && b <= 0xBF
}

/// Whether `b1` may stand second in a character led by `b0`.
fn second_byte_ok(b0: u8, b1: u8) -> (r: bool)
    ensures
        r == utf8_second_ok(b0, b1),
{
    if b0 == 0xE0 {
        0xA0 <= b1 && b1 <= 0xBF
    } else if b0 == 0xED {
        0x80 <= b1 && b1 <= 0x9F
    } else if b0 == 0xF0 {
        0x90 <= b1 && b1 <= 0xBF
    } else if b0 == 0xF4 {
        0x80 <= b1 && b1 <= 0x8F
    } else {
        cont_byte(b1)
    }
}

/// Whether `bytes` is valid UTF-8.
pub fn validate_utf8(bytes: &[u8]) -> (r: bool)
    ensures
        r == is_utf8(bytes@),
{
    let n = bytes.len();
    proof {
        assert(bytes@.skip(0) =~= bytes@);
    }
    let mut i: usize = 0;
    while i < n
        invariant
            i <= n,
            n == bytes@.len(),
            is_utf8(bytes@) <==> is_utf8(bytes@.skip(i as int)),
        decreases n - i,
    {
        let ghost t = bytes@.skip(i as int);
        proof {
            assert(t.len() == n - i);
            assert(forall|j: int| 0 <= j < t.len() ==> t[j] == bytes@[i + j]);
        }
        let b0 = bytes[i];
        let k: usize = if b0 <= 0x7F {
            1
        } else if 0xC2 <= b0 && b0 <= 0xDF {
            if n - i >= 2 && cont_byte(bytes[i + 1]) {
                2
            } else {
                0
            }
        } else if 0xE0 <= b0 && b0 <= 0xEF {
            if n - i >= 3 && second_byte_ok(b0, bytes[i + 1]) && cont_byte(bytes[i + 2]) {
                3
            } else {
                0
            }
        } else if 0xF0 <= b0 && b0 <= 0xF4 {
            if n - i >= 4 && second_byte_ok(b0, bytes[i + 1]) && cont_byte(bytes[i + 2])
                && cont_byte(bytes[i + 3]) {
                4
            } else {
                0
            }
        } else {
            0
        };
        proof {
            assert(k as int == utf8_prefix_len(t));
        }
        if k == 0 {
            proof {
                assert(!is_utf8(t));
            }
            return false;
        }
        proof {
            assert(t.skip(k as int) =~= bytes@.skip(i as int + k as int));
        }
        i = i + k;
    }
    proof {
        assert(bytes@.skip(n as int) =~= Seq::<u8>::empty());
    }
    true
}

/// Whether the bytes of `pat` stand at position `i` of `s`.
fn match_at(s: &[u8], pat: &[u8], i: usize) -> (r: bool)
    requires
        i + pat@.len() <= s@.len(),
    ensures
        r == (s@.subrange(i as int, i as int + pat@.len() as int) == pat@),
{
    let n = s.len();
    let m = pat.len();
    let mut j: usize = 0;
    while j < m
        invariant
            j <= m,
            n == s@.len(),
            m == pat@.len(),
            i + m <= n,
            forall|t: int| 0 <= t < j ==> s@[i + t] == pat@[t],
        decreases m - j,
    {
        if s[i + j] != pat[j] {
            proof {
                assert(s@.subrange(i as int, i as int + m as int)[j as int] == s@[i + j]);
            }
            return false;
        }
        j = j + 1;
    }
    proof {
        assert(s@.subrange(i as int, i as int + m as int) =~= pat@);
    }
    true
}

/// Whether the bytes of `pat` occur anywhere in `s`, contiguously.
pub fn contains_bytes(s: &[u8], pat: &[u8]) -> (r: bool)
    ensures
        r == contains_seq(s@, pat@),
{
    let n = s.len();
    let m = pat.len();
    if m > n {
        return false;
    }
    if m == 0 {
        proof {
            assert(s@.subrange(0, 0 + pat@.len() as int) =~= pat@);
        }
        return true;
    }
    let mut i: usize = 0;
    while i <= n - m
        invariant
            0 < m <= n,
            n == s@.len(),
            m == pat@.len(),
            i <= n - m + 1,
            forall|j: int|
                0 <= j < i ==> #[trigger] s@.subrange(j, j + pat@.len() as int) != pat@,
        decreases n - i,
    {
        if match_at(s, pat, i) {
            proof {
                assert(0 <= i as int && i as int + pat@.len() <= s@.len() && s@.subrange(
                    i as int,
                    i as int + pat@.len() as int,
                ) == pat@);
            }
            return true;
        }
        i = i + 1;
    }
    proof {
        assert forall|j: int| !(0 <= j && j + pat@.len() <= s@.len() && #[trigger] s@.subrange(
            j,
            j + pat@.len() as int,
        ) == pat@) by {
            if 0 <= j && j + pat@.len() <= s@.len() {
                assert(j < i);
            }
        }
    }
    false
}

/// Reads the daemon's verdict out of a raw response. The result is `Ok`
/// exactly when the response is valid UTF-8; the verdict is `true` — clean —
/// exactly when the text holds `OK` and does not hold `FOUND`.
pub fn clean(response: &[u8]) -> (r: Result<bool, DecodeError>)
    ensures
        r is Ok <==> is_utf8(response@),
        r matches Ok(v) ==> v == (contains_seq(response@, ok_marker()) && !contains_seq(
            response@,
            found_marker(),
        )),
{
    if !validate_utf8(response) {
        return Err(DecodeError);
    }
    let ok_pat: Vec<u8> = vec![0x4f, 0x4b];
    let found_pat: Vec<u8> = vec![0x46, 0x4f, 0x55, 0x4e, 0x44];
    proof {
        assert(ok_pat@ =~= ok_marker());
        assert(found_pat@ =~= found_marker());
    }
    let has_ok = contains_bytes(response, ok_pat.as_slice());
    let has_found = contains_bytes(response, found_pat.as_slice());
    Ok(has_ok && !has_found)
}

} // verus!

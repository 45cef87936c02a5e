//! Helpers shared by the transports: service names and the hex line format.

use vstd::prelude::*;
use vstd::utf8::*;
use crate::text::{owned, push_char, starts_with, string_of_chars, chars_of};

verus! {

broadcast use is_ascii_chars_encode_utf8;

// ---------------------------------------------------------------------------
// Service names
// ---------------------------------------------------------------------------

/// The text without its leading `/` characters.
pub open spec fn trim_leading_slashes(s: Seq<char>) -> Seq<char>
    decreases s.len(),
{
    if s.len() > 0 && s[0] == '/' {
        trim_leading_slashes(s.drop_first())
    } else {
        s
    }
}

/// The text without its trailing `/` characters.
pub open spec fn trim_trailing_slashes(s: Seq<char>) -> Seq<char>
    decreases s.len(),
{
    if s.len() > 0 && s.last() == '/' {
        trim_trailing_slashes(s.drop_last())
    } else {
        s
    }
}

/// The prefix that marks an iceoryx2 address.
pub open spec fn iox2_scheme() -> Seq<char> {
    "iox2://"@
}

/// The service name in a host address: without an `iox2://` prefix and
/// without `/` at either end.
pub open spec fn spec_service_name(host: Seq<char>) -> Seq<char> {
    let rest = if iox2_scheme().is_prefix_of(host) {
        host.subrange(iox2_scheme().len() as int, host.len() as int)
    } else {
        host
    };
    trim_trailing_slashes(trim_leading_slashes(rest))
}

/// The service name in a host address: without an `iox2://` prefix and
/// without `/` at either end.
pub fn service_name_from_host(host: &str) -> (r: String)
    ensures
        r@ == spec_service_name(host@),
{
    let chars = chars_of(host);
    let scheme = "iox2://";
    let mut start: usize = 0;
    if starts_with(host, scheme) {
        start = scheme.unicode_len();
    }
    let ghost rest = chars@.subrange(start as int, chars@.len() as int);
    assert(rest == if iox2_scheme().is_prefix_of(host@) {
        host@.subrange(iox2_scheme().len() as int, host@.len() as int)
    } else {
        host@
    }) by {
        if !iox2_scheme().is_prefix_of(host@) {
            assert(rest =~= host@);
        }
    }
    let mut end: usize = chars.len();
    while start < end && chars[start] == '/'
        invariant
            start <= end == chars@.len(),
            trim_leading_slashes(rest) == trim_leading_slashes(
                chars@.subrange(start as int, end as int),
            ),
        decreases end - start,
    {
        assert(chars@.subrange(start as int, end as int).drop_first() =~= chars@.subrange(
            start + 1,
            end as int,
        ));
        start = start + 1;
    }
    assert(trim_leading_slashes(chars@.subrange(start as int, end as int)) =~= chars@.subrange(
        start as int,
        end as int,
    ));
    let ghost lead = chars@.subrange(start as int, end as int);
    while start < end && chars[end - 1] == '/'
        invariant
            start <= end <= chars@.len(),
            trim_trailing_slashes(lead) == trim_trailing_slashes(
                chars@.subrange(start as int, end as int),
            ),
        decreases end - start,
    {
        assert(chars@.subrange(start as int, end as int).drop_last() =~= chars@.subrange(
            start as int,
            end - 1,
        ));
        end = end - 1;
    }
    assert(trim_trailing_slashes(chars@.subrange(start as int, end as int)) =~= chars@.subrange(
        start as int,
        end as int,
    ));
    string_of_chars(vstd::slice::slice_subrange(chars.as_slice(), start, end))
}

// ---------------------------------------------------------------------------
// Hex lines
// ---------------------------------------------------------------------------

/// The lower-case hexadecimal digit for a value below 16.
pub open spec fn hex_char(d: nat) -> char {
    if d < 10 {
        (48 + d) as char
    } else {
        (87 + d) as char
    }
}

/// The lower-case hexadecimal text of bytes, two digits per byte.
pub open spec fn hex_text(b: Seq<u8>) -> Seq<char> {
    Seq::new(
        2 * b.len(),
        |i: int| if i % 2 == 0 { hex_char((b[i / 2] / 16) as nat) } else { hex_char((b[i / 2] % 16) as nat) },
    )
}

/// The value of a hexadecimal digit byte, of either case.
pub open spec fn hex_value(c: u8) -> Option<u8> {
    if 48 <= c <= 57 {
        Some((c - 48) as u8)
    } else if 97 <= c <= 102 {
        Some((c - 97 + 10) as u8)
    } else if 65 <= c <= 70 {
        Some((c - 65 + 10) as u8)
    } else {
        None
    }
}

/// Whether every byte is a hexadecimal digit.
pub open spec fn all_hex(t: Seq<u8>) -> bool {
    forall|i: int| 0 <= i < t.len() ==> (#[trigger] hex_value(t[i])) is Some
}

/// The position of the first byte that is not a hexadecimal digit.
pub open spec fn first_non_hex(t: Seq<u8>) -> int {
    choose|i: int|
        0 <= i < t.len() && hex_value(t[i]) is None && all_hex(t.subrange(0, i))
}

/// The bytes that hexadecimal text stands for, or the reason it stands for
/// none.
pub open spec fn spec_decode_hex(text: Seq<char>) -> Result<Seq<u8>, Seq<char>> {
    let t = encode_utf8(text);
    if t.len() % 2 != 0 {
        Err("hex input must have an even length"@)
    } else if !all_hex(t) {
        Err("invalid hex digit: "@.push(t[first_non_hex(t)] as char))
    } else {
        Ok(
            Seq::new(
                t.len() / 2,
                |i: int| (hex_value(t[2 * i])->0 * 16 + hex_value(t[2 * i + 1])->0) as u8,
            ),
        )
    }
}

fn hex_digit_char(d: u8) -> (c: char)
    requires
        d < 16,
    ensures
        c == hex_char(d as nat),
{
    let code: u8 = if d < 10 {
        48 + d
    } else {
        87 + d
    };
    code as char
}

/// The lower-case hexadecimal text of bytes.
pub fn encode_hex(bytes: &[u8]) -> (r: String)
    ensures
        r@ == hex_text(bytes@),
{
    let mut out = String::new();
    let mut i: usize = 0;
    while i < bytes.len()
        invariant
            i <= bytes@.len(),
            out@ == hex_text(bytes@).subrange(0, 2 * i),
        decreases bytes@.len() - i,
    {
        let b = bytes[i];
        push_char(&mut out, hex_digit_char(b / 16));
        push_char(&mut out, hex_digit_char(b % 16));
        proof {
            let h = hex_text(bytes@);
            assert(h[2 * i] == hex_char((bytes@[i as int] / 16) as nat));
            assert(h[2 * i + 1] == hex_char((bytes@[i as int] % 16) as nat));
            assert(h.subrange(0, 2 * i + 2) =~= h.subrange(0, 2 * i).push(h[2 * i]).push(
                h[2 * i + 1],
            ));
        }
        i = i + 1;
    }
    assert(hex_text(bytes@).subrange(0, 2 * bytes@.len() as int) =~= hex_text(bytes@));
    out
}

fn hex_digit(byte: u8) -> (r: Option<u8>)
    ensures
        r == hex_value(byte),
{
    if 48 <= byte && byte <= 57 {
        Some(byte - 48)
    } else if 97 <= byte && byte <= 102 {
        Some(byte - 97 + 10)
    } else if 65 <= byte && byte <= 70 {
        Some(byte - 65 + 10)
    } else {
        None
    }
}

fn invalid_digit(byte: u8) -> (r: String)
    ensures
        r@ == "invalid hex digit: "@.push(byte as char),
{
    let mut m = owned("invalid hex digit: ");
    push_char(&mut m, byte as char);
    m
}

/// The bytes that hexadecimal text stands for.
pub fn decode_hex(text: &str) -> (r: Result<Vec<u8>, String>)
    ensures
        match spec_decode_hex(text@) {
            Ok(b) => r matches Ok(x) && x@ == b,
            Err(m) => r matches Err(x) && x@ == m,
        },
{
    let t = text.as_bytes();
    if t.len() % 2 != 0 {
        return Err(owned("hex input must have an even length"));
    }
    let ghost want = Seq::new(
        t@.len() / 2,
        |i: int| (hex_value(t@[2 * i])->0 * 16 + hex_value(t@[2 * i + 1])->0) as u8,
    );
    let mut out: Vec<u8> = Vec::new();
    let mut i: usize = 0;
    while i < t.len() / 2
        invariant
            t@ == encode_utf8(text@),
            t@.len() % 2 == 0,
            i <= t@.len() / 2,
            all_hex(t@.subrange(0, 2 * i)),
            out@ == want.subrange(0, i as int),
            want == Seq::new(
                t@.len() / 2,
                |i: int| (hex_value(t@[2 * i])->0 * 16 + hex_value(t@[2 * i + 1])->0) as u8,
            ),
        decreases t@.len() / 2 - i,
    {
        let hi = match hex_digit(t[2 * i]) {
            Some(d) => d,
            None => {
                proof {
                    assert(!all_hex(t@)) by {
                        assert(hex_value(t@[2 * i]) is None);
                    }
                    let k = 2 * i as int;
                    assert(hex_value(t@[k]) is None && all_hex(t@.subrange(0, k)));
                    lemma_first_non_hex_unique(t@, k);
                }
                return Err(invalid_digit(t[2 * i]));
            },
        };
        let lo = match hex_digit(t[2 * i + 1]) {
            Some(d) => d,
            None => {
                proof {
                    assert(!all_hex(t@)) by {
                        assert(hex_value(t@[2 * i + 1]) is None);
                    }
                    let k = 2 * i + 1;
                    assert forall|j: int| 0 <= j < k implies (#[trigger] hex_value(
                        t@.subrange(0, k)[j],
                    )) is Some by {
                        if j < 2 * i {
                            assert(t@.subrange(0, k)[j] == t@.subrange(0, 2 * i)[j]);
                        }
                    }
                    lemma_first_non_hex_unique(t@, k);
                }
                return Err(invalid_digit(t[2 * i + 1]));
            },
        };
        out.push(hi * 16 + lo);
        proof {
            assert(out@ =~= want.subrange(0, i + 1));
            assert forall|j: int| 0 <= j < 2 * i + 2 implies (#[trigger] hex_value(
                t@.subrange(0, 2 * i + 2)[j],
            )) is Some by {
                if j < 2 * i {
                    assert(t@.subrange(0, 2 * i + 2)[j] == t@.subrange(0, 2 * i)[j]);
                }
            }
        }
        i = i + 1;
    }
    assert(t@.subrange(0, t@.len() as int) =~= t@);
    assert(want.subrange(0, want.len() as int) =~= want);
    Ok(out)
}

proof fn lemma_first_non_hex_unique(t: Seq<u8>, k: int)
    requires
        0 <= k < t.len(),
        hex_value(t[k]) is None,
        all_hex(t.subrange(0, k)),
    ensures
        first_non_hex(t) == k,
{
    let f = first_non_hex(t);
    assert(0 <= f < t.len() && hex_value(t[f]) is None && all_hex(t.subrange(0, f)));
    if f < k {
        assert(hex_value(t.subrange(0, k)[f]) is Some);
    } else if f > k {
        assert(hex_value(t.subrange(0, f)[k]) is Some);
    }
}

/// Hexadecimal text read back gives the bytes it was written from.
pub proof fn law_hex_roundtrip(b: Seq<u8>)
    ensures
        spec_decode_hex(hex_text(b)) == Ok::<Seq<u8>, Seq<char>>(b),
{
    let h = hex_text(b);
    assert(is_ascii_chars(h)) by {
        assert forall|i: int| 0 <= i < h.len() implies (h[i] as u32) < 128 by {}
    }
    let t = encode_utf8(h);
    assert(t.len() == h.len());
    assert forall|i: int| 0 <= i < t.len() implies (#[trigger] hex_value(t[i])) is Some by {
        assert(h[i] as u8 == t[i]);
    }
    assert forall|i: int| 0 <= i < b.len() implies ((hex_value(t[2 * i])->0 * 16 + hex_value(
        t[2 * i + 1],
    )->0) as u8) == #[trigger] b[i] by {
        assert(h[2 * i] as u8 == t[2 * i]);
        assert(h[2 * i + 1] as u8 == t[2 * i + 1]);
        assert(hex_value(t[2 * i])->0 == b[i] / 16);
        assert(hex_value(t[2 * i + 1])->0 == b[i] % 16);
    }
    assert(spec_decode_hex(h)->Ok_0 =~= b);
}

/// A byte with `A`-`F` turned into `a`-`f`.
pub open spec fn lower_hex_byte(c: u8) -> u8 {
    if 65 <= c <= 70 {
        (c + 32) as u8
    } else {
        c
    }
}

/// Encoding the bytes that hexadecimal text decodes to gives back the text
/// in lower case.
pub proof fn law_hex_decode_then_encode(text: Seq<char>)
    requires
        spec_decode_hex(text) is Ok,
    ensures
        encode_utf8(hex_text(spec_decode_hex(text)->Ok_0)) == encode_utf8(text).map_values(
            |c: u8| lower_hex_byte(c),
        ),
{
    let t = encode_utf8(text);
    let b = spec_decode_hex(text)->Ok_0;
    let h = hex_text(b);
    assert(is_ascii_chars(h)) by {
        assert forall|i: int| 0 <= i < h.len() implies '\0' <= #[trigger] h[i] <= '\u{7f}' by {}
    }
    let e = encode_utf8(h);
    let want = t.map_values(|c: u8| lower_hex_byte(c));
    assert(e.len() == want.len());
    assert forall|i: int| 0 <= i < e.len() implies e[i] == want[i] by {
        assert(h[i] as u8 == e[i]);
        let k = i / 2;
        assert(hex_value(t[2 * k]) is Some);
        assert(hex_value(t[2 * k + 1]) is Some);
        let hi = hex_value(t[2 * k])->0;
        let lo = hex_value(t[2 * k + 1])->0;
        assert(b[k] == (hi * 16 + lo) as u8);
        assert(b[k] / 16 == hi && b[k] % 16 == lo);
        if i % 2 == 0 {
            assert(i == 2 * k);
        } else {
            assert(i == 2 * k + 1);
        }
    }
    assert(e =~= want);
}

} // verus!

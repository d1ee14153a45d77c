//! The identifier model: a 128-bit value as 16 raw bytes, its canonical
//! hexadecimal spelling as read from descriptor files, and its compact
//! 32-character lowercase spelling as rewritten inside arbitrary text.

use vstd::prelude::*;

verus! {

/// Whether a byte is a hexadecimal digit character, either case.
pub open spec fn is_hex_digit(b: u8) -> bool {
    (48 <= b && b <= 57) || (97 <= b && b <= 102) || (65 <= b && b <= 70)
}

/// The numeric value of one hexadecimal digit character.
pub open spec fn hex_digit_value(b: u8) -> nat {
    if 48 <= b && b <= 57 {
        (b - 48) as nat
    } else if 97 <= b && b <= 102 {
        (b - 87) as nat
    } else if 65 <= b && b <= 70 {
        (b - 55) as nat
    } else {
        0
    }
}

/// The lowercase hexadecimal digit character of a value below 16.
pub open spec fn lower_hex_char(v: nat) -> u8 {
    if v < 10 {
        (v + 48) as u8
    } else {
        (v + 87) as u8
    }
}

/// Whether a byte is a lowercase hexadecimal digit character.
pub open spec fn is_lower_hex_digit(b: u8) -> bool {
    (48 <= b && b <= 57) || (97 <= b && b <= 102)
}

/// The compact encoding: exactly 32 lowercase hexadecimal digits.
pub open spec fn is_compact(s: Seq<u8>) -> bool {
    s.len() == 32 && forall|i: int| 0 <= i < s.len() ==> is_lower_hex_digit(#[trigger] s[i])
}

/// The canonical encoding: 32 hexadecimal digits, either bare or
/// hyphen-grouped 8-4-4-4-12 (hyphens at positions 8, 13, 18 and 23).
pub open spec fn is_canonical(s: Seq<u8>) -> bool {
    ||| (s.len() == 32 && forall|i: int| 0 <= i < 32 ==> is_hex_digit(#[trigger] s[i]))
    ||| (s.len() == 36 && s[8] == 45 && s[13] == 45 && s[18] == 45 && s[23] == 45
        && forall|i: int|
        0 <= i < 36 && i != 8 && i != 13 && i != 18 && i != 23 ==> is_hex_digit(#[trigger] s[i]))
}

/// How many hyphens precede digit number `j` in the hyphenated spelling.
pub open spec fn hyphen_shift(j: int) -> int {
    if j < 8 {
        0
    } else if j < 12 {
        1
    } else if j < 16 {
        2
    } else if j < 20 {
        3
    } else {
        4
    }
}

/// The 32 digit characters of a canonical spelling, hyphens removed.
pub open spec fn canonical_digits(s: Seq<u8>) -> Seq<u8> {
    if s.len() == 36 {
        Seq::new(32, |j: int| s[j + hyphen_shift(j)])
    } else {
        s
    }
}

/// The 16 bytes denoted by 32 hexadecimal digit characters, most
/// significant digit first.
pub open spec fn bytes_of_digits(d: Seq<u8>) -> Seq<u8> {
    Seq::new(
        (d.len() / 2) as nat,
        |i: int| (hex_digit_value(d[2 * i]) * 16 + hex_digit_value(d[2 * i + 1])) as u8,
    )
}

/// The compact spelling of raw bytes: each byte as two lowercase digits.
pub open spec fn compact_of_bytes(b: Seq<u8>) -> Seq<u8> {
    Seq::new(
        b.len() * 2,
        |i: int|
            if i % 2 == 0 {
                lower_hex_char((b[i / 2] / 16) as nat)
            } else {
                lower_hex_char((b[i / 2] % 16) as nat)
            },
    )
}

/// The identifier a descriptor declares together with its fresh replacement,
/// both in compact form. The two spellings always have the same length, 32,
/// which is what makes in-place rewriting safe.
pub struct MappingEntry {
    pub old_id: Vec<u8>,
    pub new_id: Vec<u8>,
}

impl MappingEntry {
    pub open spec fn wf(self) -> bool {
        is_compact(self.old_id@) && is_compact(self.new_id@)
    }
}

/// Length invariance: a well-formed entry always carries two 32-character
/// spellings, so substituting one for the other never changes a length.
pub proof fn lemma_entry_lengths(e: MappingEntry)
    requires
        e.wf(),
    ensures
        e.old_id@.len() == 32,
        e.new_id@.len() == 32,
        e.old_id@.len() == e.new_id@.len(),
{
}

/// The numeric value of one hexadecimal digit character, or none.
fn hex_value(b: u8) -> (r: Option<u8>)
    ensures
        r is Some <==> is_hex_digit(b),
        r matches Some(v) ==> v == hex_digit_value(b) && v < 16,
{
    if 48 <= b && b <= 57 {
        Some(b - 48)
    } else if 97 <= b && b <= 102 {
        Some(b - 87)
    } else if 65 <= b && b <= 70 {
        Some(b - 55)
    } else {
        None
    }
}

/// The lowercase digit character of a value below 16.
fn lower_hex(v: u8) -> (r: u8)
    requires
        v < 16,
    ensures
        r == lower_hex_char(v as nat),
{
    if v < 10 {
        v + 48
    } else {
        v + 87
    }
}

/// Where digit number `j` of the hyphenated spelling stands in the text.
fn digit_position(j: usize) -> (r: usize)
    requires
        j < 32,
    ensures
        r == j + hyphen_shift(j as int),
        r < 36,
        r != 8 && r != 13 && r != 18 && r != 23,
{
    if j < 8 {
        j
    } else if j < 12 {
        j + 1
    } else if j < 16 {
        j + 2
    } else if j < 20 {
        j + 3
    } else {
        j + 4
    }
}

/// Parses a canonical spelling into the 16 bytes it denotes. Returns the
/// bytes exactly when the input is canonical; any other shape is rejected.
pub fn parse_canonical(s: &Vec<u8>) -> (r: Option<Vec<u8>>)
    ensures
        r is Some <==> is_canonical(s@),
        r matches Some(b) ==> b@ == bytes_of_digits(canonical_digits(s@)) && b@.len() == 16,
{
    let n = s.len();
    if n != 32 && n != 36 {
        return None;
    }
    let hyphenated = n == 36;
    let mut i: usize = 0;
    while i < n
        invariant
            i <= n,
            n == s@.len(),
            n == 32 || n == 36,
            hyphenated == (n == 36),
            forall|k: int|
                0 <= k < i && (!hyphenated || (k != 8 && k != 13 && k != 18 && k != 23))
                    ==> is_hex_digit(#[trigger] s@[k]),
            forall|k: int|
                0 <= k < i && hyphenated && (k == 8 || k == 13 || k == 18 || k == 23)
                    ==> s@[k] == 45,
        decreases n - i,
    {
        if hyphenated && (i == 8 || i == 13 || i == 18 || i == 23) {
            if s[i] != 45 {
                return None;
            }
        } else {
            if hex_value(s[i]).is_none() {
                return None;
            }
        }
        i += 1;
    }
    assert(is_canonical(s@));
    let ghost d = canonical_digits(s@);
    assert(d.len() == 32);
    let mut out: Vec<u8> = Vec::new();
    let mut k: usize = 0;
    while k < 16
        invariant
            k <= 16,
            n == s@.len(),
            n == 32 || n == 36,
            hyphenated == (n == 36),
            is_canonical(s@),
            d == canonical_digits(s@),
            out@.len() == k,
            forall|m: int| 0 <= m < k ==> out@[m] == bytes_of_digits(d)[m],
        decreases 16 - k,
    {
        let p1 = if hyphenated { digit_position(2 * k) } else { 2 * k };
        let p2 = if hyphenated { digit_position(2 * k + 1) } else { 2 * k + 1 };
        assert(d[2 * k as int] == s@[p1 as int]);
        assert(d[2 * k as int + 1] == s@[p2 as int]);
        let v1 = match hex_value(s[p1]) {
            Some(v) => v,
            None => unreached(),
        };
        let v2 = match hex_value(s[p2]) {
            Some(v) => v,
            None => unreached(),
        };
        out.push(v1 * 16 + v2);
        k += 1;
    }
    assert(out@ =~= bytes_of_digits(d));
    Some(out)
}

/// Renders 16 raw bytes in the compact form: 32 lowercase hexadecimal
/// digits, most significant first.
pub fn to_compact(b: &Vec<u8>) -> (r: Vec<u8>)
    requires
        b@.len() == 16,
    ensures
        r@ == compact_of_bytes(b@),
        is_compact(r@),
{
    let mut out: Vec<u8> = Vec::new();
    let mut i: usize = 0;
    while i < 16
        invariant
            i <= 16,
            b@.len() == 16,
            out@.len() == 2 * i,
            forall|m: int| 0 <= m < 2 * i ==> out@[m] == compact_of_bytes(b@)[m],
        decreases 16 - i,
    {
        let x = b[i];
        out.push(lower_hex(x / 16));
        out.push(lower_hex(x % 16));
        i += 1;
    }
    assert(out@ =~= compact_of_bytes(b@));
    assert forall|m: int| 0 <= m < out@.len() implies is_lower_hex_digit(#[trigger] out@[m]) by {
        assert(out@[m] == compact_of_bytes(b@)[m]);
    }
    out
}

/// The two encodings denote the same value: rendering 16 bytes compactly and
/// parsing the result back yields the same 16 bytes, and the compact form is
/// itself canonical.
pub proof fn lemma_compact_round_trip(b: Seq<u8>)
    requires
        b.len() == 16,
    ensures
        is_compact(compact_of_bytes(b)),
        is_canonical(compact_of_bytes(b)),
        bytes_of_digits(canonical_digits(compact_of_bytes(b))) == b,
{
    let c = compact_of_bytes(b);
    assert forall|i: int| 0 <= i < c.len() implies is_lower_hex_digit(#[trigger] c[i]) by {
        if i % 2 == 0 {
            assert(c[i] == lower_hex_char((b[i / 2] / 16) as nat));
        } else {
            assert(c[i] == lower_hex_char((b[i / 2] % 16) as nat));
        }
    }
    assert(is_compact(c));
    assert forall|i: int| 0 <= i < 32 implies is_hex_digit(#[trigger] c[i]) by {
        assert(is_lower_hex_digit(c[i]));
    }
    assert(is_canonical(c));
    assert(canonical_digits(c) == c);
    assert forall|k: int| 0 <= k < 16 implies bytes_of_digits(c)[k] == b[k] by {
        assert(c[2 * k] == lower_hex_char((b[k] / 16) as nat));
        assert(c[2 * k + 1] == lower_hex_char((b[k] % 16) as nat));
        assert(hex_digit_value(lower_hex_char((b[k] / 16) as nat)) == b[k] / 16);
        assert(hex_digit_value(lower_hex_char((b[k] % 16) as nat)) == b[k] % 16);
        assert(b[k] / 16 * 16 + b[k] % 16 == b[k]) by {
            vstd::arithmetic::div_mod::lemma_fundamental_div_mod(b[k] as int, 16);
        }
    }
    assert(bytes_of_digits(canonical_digits(c)) =~= b);
}

} // verus!

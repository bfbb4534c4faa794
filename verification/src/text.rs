//! Verified text forms: hex color strings and decimal numbers, as they
//! are stored in the project metadata and presented to callers.

use vstd::prelude::*;
use vstd::utf8::decode_utf8;
use vstd::utf8::encode_utf8;
use vstd::utf8::is_ascii_chars;
use vstd::utf8::valid_utf8;

use crate::model::Color;
use crate::model::StoreError;
use crate::outside::string_from_utf8;

verus! {

/// ASCII bytes are valid UTF-8 and decode to their own characters.
pub proof fn lemma_ascii_bytes_chars(bytes: Seq<u8>)
    requires
        forall|i: int| 0 <= i < bytes.len() ==> #[trigger] bytes[i] < 128,
    ensures
        valid_utf8(bytes),
        decode_utf8(bytes).len() == bytes.len(),
        forall|i: int| 0 <= i < bytes.len() ==> #[trigger] decode_utf8(bytes)[i] == bytes[i] as char,
{
    let chars = Seq::new(bytes.len(), |i: int| bytes[i] as char);
    assert(is_ascii_chars(chars));
    vstd::utf8::is_ascii_chars_encode_utf8(chars);
    assert(encode_utf8(chars) =~= bytes);
    vstd::utf8::encode_utf8_valid_utf8(chars);
    vstd::utf8::encode_utf8_decode_utf8(chars);
}

/// UTF-8 encoding distributes over concatenation.
pub proof fn lemma_encode_utf8_concat(a: Seq<char>, b: Seq<char>)
    ensures
        encode_utf8(a + b) == encode_utf8(a) + encode_utf8(b),
    decreases a.len(),
{
    if a.len() == 0 {
        assert(a + b =~= b);
        assert(encode_utf8(a) =~= Seq::<u8>::empty());
        assert(encode_utf8(a) + encode_utf8(b) =~= encode_utf8(b));
    } else {
        let rest = a.drop_first();
        lemma_encode_utf8_concat(rest, b);
        assert((a + b).drop_first() =~= rest + b);
        assert((a + b)[0] == a[0]);
        assert(encode_utf8(a + b) == vstd::utf8::encode_scalar((a + b)[0] as u32) + encode_utf8(
            (a + b).drop_first(),
        ));
        assert(encode_utf8(a + b) =~= encode_utf8(a) + encode_utf8(b));
    }
}

/// The numeric value of a hex digit, in either case; nothing for any
/// other character.
pub open spec fn hex_val(c: char) -> Option<u8> {
    let u = c as u32;
    if 48 <= u <= 57 {
        Some((u - 48) as u8)
    } else if 65 <= u <= 70 {
        Some((u - 55) as u8)
    } else if 97 <= u <= 102 {
        Some((u - 87) as u8)
    } else {
        None
    }
}

/// The uppercase hex digit for a value below sixteen.
pub open spec fn hex_digit(n: u8) -> char
    recommends
        n < 16,
{
    if n < 10 {
        ((48 + n) as u8) as char
    } else {
        ((55 + n) as u8) as char
    }
}

/// The text with every leading number sign removed.
pub open spec fn strip_hashes(s: Seq<char>) -> Seq<char>
    decreases s.len(),
{
    if s.len() > 0 && s[0] == '#' {
        strip_hashes(s.drop_first())
    } else {
        s
    }
}

/// The color a hex string denotes: after any leading number signs,
/// either six hex digits (a pair per channel) or three (one digit per
/// channel, doubled); anything else denotes no color.
pub open spec fn spec_from_hex(s: Seq<char>) -> Option<Color> {
    let h = strip_hashes(s);
    if h.len() == 6 && (forall|i: int| 0 <= i < 6 ==> hex_val(#[trigger] h[i]) is Some) {
        Some(
            Color {
                r: (hex_val(h[0])->0 * 16 + hex_val(h[1])->0) as u8,
                g: (hex_val(h[2])->0 * 16 + hex_val(h[3])->0) as u8,
                b: (hex_val(h[4])->0 * 16 + hex_val(h[5])->0) as u8,
            },
        )
    } else if h.len() == 3 && (forall|i: int| 0 <= i < 3 ==> hex_val(#[trigger] h[i]) is Some) {
        Some(
            Color {
                r: (hex_val(h[0])->0 * 17) as u8,
                g: (hex_val(h[1])->0 * 17) as u8,
                b: (hex_val(h[2])->0 * 17) as u8,
            },
        )
    } else {
        None
    }
}

/// The canonical hex form of a color: a number sign and six uppercase
/// hex digits.
pub open spec fn spec_hex_string(c: Color) -> Seq<char> {
    seq![
        '#',
        hex_digit(c.r / 16),
        hex_digit(c.r % 16),
        hex_digit(c.g / 16),
        hex_digit(c.g % 16),
        hex_digit(c.b / 16),
        hex_digit(c.b % 16),
    ]
}

/// A hex digit reads back as its value.
pub proof fn lemma_hex_digit_val(n: u8)
    requires
        n < 16,
    ensures
        hex_val(hex_digit(n)) == Some(n),
        hex_digit(n) != '#',
{
}

/// Printing a color as hex text and parsing it back yields the color.
pub proof fn lemma_hex_round_trip(c: Color)
    ensures
        spec_from_hex(spec_hex_string(c)) == Some(c),
{
    let s = spec_hex_string(c);
    assert(s[0] == '#');
    let h = strip_hashes(s);
    assert(strip_hashes(s) == strip_hashes(s.drop_first()));
    lemma_hex_digit_val(c.r / 16);
    lemma_hex_digit_val(c.r % 16);
    lemma_hex_digit_val(c.g / 16);
    lemma_hex_digit_val(c.g % 16);
    lemma_hex_digit_val(c.b / 16);
    lemma_hex_digit_val(c.b % 16);
    assert(s.drop_first().len() == 6 && s.drop_first()[0] != '#');
    assert(h =~= s.drop_first());
    assert(hex_val(h[0]) == Some((c.r / 16) as u8));
    assert(hex_val(h[0])->0 * 16 + hex_val(h[1])->0 == c.r);
    assert(hex_val(h[2])->0 * 16 + hex_val(h[3])->0 == c.g);
    assert(hex_val(h[4])->0 * 16 + hex_val(h[5])->0 == c.b);
}

/// The numeric value of a hex character, if any.
fn hex_val_exec(c: char) -> (r: Option<u8>)
    ensures
        r == hex_val(c),
{
    let u = c as u32;
    if 48 <= u && u <= 57 {
        Some((u - 48) as u8)
    } else if 65 <= u && u <= 70 {
        Some((u - 55) as u8)
    } else if 97 <= u && u <= 102 {
        Some((u - 87) as u8)
    } else {
        None
    }
}

impl Color {
    /// Parse a hex color string: an optional run of leading number
    /// signs, then six hex digits, or three that stand doubled.
    #[verifier::loop_isolation(false)]
    pub fn from_hex_string(hex: &str) -> (r: Result<Color, StoreError>)
        ensures
            match r {
                Ok(c) => spec_from_hex(hex@) == Some(c),
                Err(e) => spec_from_hex(hex@) is None && e == StoreError::BadValue,
            },
    {
        let n = hex.unicode_len();
        let mut start: usize = 0;
        while start < n && hex.get_char(start) == '#'
            invariant
                0 <= start <= n,
                forall|i: int| 0 <= i < start ==> #[trigger] hex@[i] == '#',
            decreases n - start,
        {
            start += 1;
        }
        proof {
            lemma_strip_hashes_at(hex@, start as int);
        }
        let ghost h = strip_hashes(hex@);
        let rest = n - start;
        if rest != 6 && rest != 3 {
            return Err(StoreError::BadValue);
        }
        let mut vals: Vec<u8> = Vec::new();
        let mut i: usize = 0;
        while i < rest
            invariant
                0 <= i <= rest,
                rest == n - start,
                vals@.len() == i,
                forall|k: int|
                    0 <= k < i ==> hex_val(#[trigger] h[k]) == Some(vals@[k]),
            decreases rest - i,
        {
            let c = hex.get_char(start + i);
            match hex_val_exec(c) {
                Some(v) => {
                    vals.push(v);
                },
                None => {
                    proof {
                        assert(hex_val(h[i as int]) is None);
                    }
                    return Err(StoreError::BadValue);
                },
            }
            i += 1;
        }
        if rest == 6 {
            Ok(
                Color {
                    r: vals[0] * 16 + vals[1],
                    g: vals[2] * 16 + vals[3],
                    b: vals[4] * 16 + vals[5],
                },
            )
        } else {
            Ok(Color { r: vals[0] * 17, g: vals[1] * 17, b: vals[2] * 17 })
        }
    }

    /// The canonical hex form of this color: a number sign and six
    /// uppercase hex digits.
    pub fn to_hex_string(&self) -> (r: String)
        ensures
            r@ == spec_hex_string(*self),
    {
        let mut bytes: Vec<u8> = Vec::new();
        bytes.push(35);
        push_hex_byte(&mut bytes, self.r);
        push_hex_byte(&mut bytes, self.g);
        push_hex_byte(&mut bytes, self.b);
        proof {
            assert(forall|i: int| 0 <= i < bytes@.len() ==> #[trigger] bytes@[i] < 128);
            lemma_ascii_bytes_chars(bytes@);
            assert(decode_utf8(bytes@) =~= spec_hex_string(*self));
        }
        match string_from_utf8(bytes) {
            Some(s) => s,
            None => {
                proof {
                    assert(false);
                }
                String::new()
            },
        }
    }
}

/// Append the two uppercase hex digits of one byte.
fn push_hex_byte(bytes: &mut Vec<u8>, v: u8)
    ensures
        final(bytes)@ == old(bytes)@.push(hex_digit(v / 16) as u8).push(hex_digit(v % 16) as u8),
        (hex_digit(v / 16) as u8) < 128,
        (hex_digit(v % 16) as u8) < 128,
{
    let hi = v / 16;
    let lo = v % 16;
    let hb: u8 = if hi < 10 {
        48 + hi
    } else {
        55 + hi
    };
    let lb: u8 = if lo < 10 {
        48 + lo
    } else {
        55 + lo
    };
    proof {
        assert(hb == hex_digit(v / 16) as u8);
        assert(lb == hex_digit(v % 16) as u8);
    }
    bytes.push(hb);
    bytes.push(lb);
}

/// When the first `i` characters are number signs and the character at
/// `i` (if any) is not, stripping removes exactly that prefix.
pub proof fn lemma_strip_hashes_at(s: Seq<char>, i: int)
    requires
        0 <= i <= s.len(),
        forall|k: int| 0 <= k < i ==> #[trigger] s[k] == '#',
        i < s.len() ==> s[i] != '#',
    ensures
        strip_hashes(s) =~= s.skip(i),
    decreases i,
{
    if i == 0 {
        if s.len() > 0 && s[0] == '#' {
            assert(false);
        }
        assert(s.skip(0) =~= s);
    } else {
        assert(s[0] == '#');
        let rest = s.drop_first();
        assert forall|k: int| 0 <= k < i - 1 implies #[trigger] rest[k] == '#' by {
            assert(rest[k] == s[k + 1]);
        }
        assert(i - 1 < rest.len() ==> rest[i - 1] != '#');
        lemma_strip_hashes_at(rest, i - 1);
        assert(rest.skip(i - 1) =~= s.skip(i));
    }
}

/// The decimal digits of a number, most significant first.
pub open spec fn dec_digits(n: u64) -> Seq<char>
    decreases n,
{
    if n < 10 {
        seq![((48 + n) as u8) as char]
    } else {
        dec_digits(n / 10).push(((48 + n % 10) as u8) as char)
    }
}

/// The numeric value a digit string denotes, most significant first.
pub open spec fn dec_val(s: Seq<char>) -> int
    decreases s.len(),
{
    if s.len() == 0 {
        0
    } else {
        dec_val(s.drop_last()) * 10 + (s.last() as u32 - 48)
    }
}

/// Whether every character is a decimal digit.
pub open spec fn all_dec_digits(s: Seq<char>) -> bool {
    forall|i: int| 0 <= i < s.len() ==> 48 <= (#[trigger] s[i]) as u32 <= 57
}

/// The number a decimal string denotes: one or more digits whose value
/// fits; anything else denotes no number.
pub open spec fn spec_parse_u64(s: Seq<char>) -> Option<u64> {
    if s.len() >= 1 && all_dec_digits(s) && dec_val(s) <= u64::MAX {
        Some(dec_val(s) as u64)
    } else {
        None
    }
}

/// A digit string's value never shrinks as digits are appended.
pub proof fn lemma_dec_val_prefix(s: Seq<char>, i: int)
    requires
        0 <= i <= s.len(),
        all_dec_digits(s),
    ensures
        dec_val(s.take(i)) <= dec_val(s),
        dec_val(s) >= 0,
    decreases s.len(),
{
    if s.len() == 0 {
        assert(s.take(i) =~= s);
    } else {
        lemma_dec_val_prefix(s.drop_last(), if i <= s.len() - 1 {
            i
        } else {
            i - 1
        });
        assert(all_dec_digits(s.drop_last()));
        if i <= s.len() - 1 {
            assert(s.take(i) =~= s.drop_last().take(i));
            assert(dec_val(s.drop_last()) <= dec_val(s));
        } else {
            assert(s.take(i) =~= s);
        }
    }
}

/// Printing a number in decimal and parsing it back yields the number.
pub proof fn lemma_dec_round_trip(n: u64)
    ensures
        all_dec_digits(dec_digits(n)),
        dec_digits(n).len() >= 1,
        dec_val(dec_digits(n)) == n,
        spec_parse_u64(dec_digits(n)) == Some(n),
    decreases n,
{
    if n < 10 {
        let s = dec_digits(n);
        let c = ((48 + n) as u8) as char;
        assert((48 + n) as u8 == 48 + n);
        assert(c as u32 == 48 + n);
        assert(s.drop_last() =~= Seq::<char>::empty());
        assert(dec_val(Seq::<char>::empty()) == 0);
        assert(dec_val(s) == (s.last() as u32 - 48));
        assert(dec_val(s) == n);
        assert(all_dec_digits(s));
    } else {
        lemma_dec_round_trip(n / 10);
        let s = dec_digits(n);
        let c = ((48 + n % 10) as u8) as char;
        assert((48 + n % 10) as u8 == 48 + n % 10);
        assert(c as u32 == 48 + n % 10);
        assert(s.drop_last() =~= dec_digits(n / 10));
        assert(s.last() == c);
        assert(dec_val(s) == dec_val(dec_digits(n / 10)) * 10 + n % 10);
        assert((n / 10) * 10 + n % 10 == n) by (nonlinear_arith);
        assert(dec_val(s) == n);
        assert forall|i: int| 0 <= i < s.len() implies 48 <= (#[trigger] s[i]) as u32 <= 57 by {
            if i < s.len() - 1 {
                assert(s[i] == dec_digits(n / 10)[i]);
                assert(48 <= dec_digits(n / 10)[i] as u32 <= 57);
            }
        }
    }
}

/// Render a number in decimal.
#[verifier::loop_isolation(false)]
pub fn format_u64(n: u64) -> (r: String)
    ensures
        r@ == dec_digits(n),
{
    let mut rev: Vec<u8> = Vec::new();
    let mut rest = n;
    loop
        invariant
            rest <= n,
            dec_digits(n) =~= dec_digits(rest) + rev@.map_values(|b: u8| b as char).reverse(),
            forall|i: int| 0 <= i < rev@.len() ==> 48 <= #[trigger] rev@[i] < 58,
        decreases rest,
    {
        let digit: u8 = (rest % 10) as u8 + 48;
        let ghost pre = rev@;
        rev.push(digit);
        proof {
            if rest >= 10 {
                assert(dec_digits(rest) == dec_digits(rest / 10).push(
                    ((48 + rest % 10) as u8) as char,
                ));
            }
            assert(rev@.map_values(|b: u8| b as char).reverse() =~= seq![digit as char] + pre.map_values(
                |b: u8| b as char,
            ).reverse());
            if rest >= 10 {
                assert(dec_digits(rest / 10) + rev@.map_values(|b: u8| b as char).reverse()
                    =~= dec_digits(rest) + pre.map_values(|b: u8| b as char).reverse());
            } else {
                assert(dec_digits(rest) =~= seq![digit as char]);
                assert(rev@.map_values(|b: u8| b as char).reverse() =~= dec_digits(rest)
                    + pre.map_values(|b: u8| b as char).reverse());
            }
        }
        if rest < 10 {
            break ;
        }
        rest = rest / 10;
    }
    let mut bytes: Vec<u8> = Vec::new();
    let mut i: usize = rev.len();
    while i > 0
        invariant
            0 <= i <= rev@.len(),
            bytes@.map_values(|b: u8| b as char) =~= rev@.map_values(|b: u8| b as char).reverse().take(
                rev@.len() - i,
            ),
            forall|k: int| 0 <= k < bytes@.len() ==> #[trigger] bytes@[k] < 128,
        decreases i,
    {
        i -= 1;
        let ghost pre = bytes@;
        bytes.push(rev[i]);
        proof {
            assert(bytes@.map_values(|b: u8| b as char) =~= pre.map_values(|b: u8| b as char).push(
                rev@[i as int] as char,
            ));
            assert(bytes@.map_values(|b: u8| b as char) =~= rev@.map_values(
                |b: u8| b as char,
            ).reverse().take(rev@.len() - i));
        }
    }
    proof {
        assert(bytes@.map_values(|b: u8| b as char) =~= rev@.map_values(|b: u8| b as char).reverse());
        assert(dec_digits(n) =~= bytes@.map_values(|b: u8| b as char));
        lemma_ascii_bytes_chars(bytes@);
        assert(decode_utf8(bytes@) =~= dec_digits(n));
    }
    match string_from_utf8(bytes) {
        Some(s) => s,
        None => {
            proof {
                assert(false);
            }
            String::new()
        },
    }
}

/// Parse a decimal string: one or more digits whose value fits in the
/// numeric range.
#[verifier::loop_isolation(false)]
pub fn parse_u64(s: &str) -> (r: Option<u64>)
    ensures
        r == spec_parse_u64(s@),
{
    let n = s.unicode_len();
    if n == 0 {
        return None;
    }
    let mut acc: u64 = 0;
    let mut i: usize = 0;
    while i < n
        invariant
            0 <= i <= n,
            n == s@.len(),
            all_dec_digits(s@.take(i as int)),
            acc == dec_val(s@.take(i as int)),
        decreases n - i,
    {
        let c = s.get_char(i);
        let u = c as u32;
        if u < 48 || u > 57 {
            proof {
                assert(!(48 <= s@[i as int] as u32 <= 57));
            }
            return None;
        }
        let d = (u - 48) as u64;
        proof {
            assert(s@.take(i as int + 1).drop_last() =~= s@.take(i as int));
            assert(s@.take(i as int + 1).last() == s@[i as int]);
        }
        if acc > (u64::MAX - d) / 10 {
            proof {
                assert(dec_val(s@.take(i as int + 1)) == acc * 10 + d);
                assert(acc * 10 + d > u64::MAX) by (nonlinear_arith)
                    requires
                        acc > (u64::MAX - d) / 10,
                        d <= 9,
                        acc <= u64::MAX,
                {
                }
                if all_dec_digits(s@) {
                    lemma_dec_val_prefix(s@, i as int + 1);
                }
            }
            return None;
        }
        acc = acc * 10 + d;
        proof {
            assert(acc == dec_val(s@.take(i as int + 1)));
        }
        i += 1;
    }
    proof {
        assert(s@.take(n as int) =~= s@);
    }
    Some(acc)
}

} // verus!

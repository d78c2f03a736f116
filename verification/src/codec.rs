//! The key codec.
//!
//! A key is an opaque byte string. Its filename form is `key=` followed by
//! the form-urlencoded bytes of the key: ASCII alphanumerics and `*`, `-`,
//! `.`, `_` stand for themselves, a space becomes `+`, and every other byte
//! becomes `%` with two uppercase hexadecimal digits. Decoding accepts
//! exactly the strings this encoding produces, so the codec is injective and
//! a round trip returns the key unchanged.

use crate::errors::Error;
use vstd::prelude::*;

verus! {

/// `%`, which opens a hexadecimal escape.
pub const PERCENT_BYTE: u8 = 37;

/// `+`, which stands for a space.
pub const PLUS_BYTE: u8 = 43;

/// The space byte itself.
pub const SPACE_BYTE: u8 = 32;

/// A byte the encoding keeps as itself: ASCII alphanumerics and `*`, `-`,
/// `.`, `_` (the form-urlencoded unreserved set).
pub open spec fn is_unreserved(b: u8) -> bool {
    (65 <= b && b <= 90)  // A-Z
    || (97 <= b && b <= 122)  // a-z
    || (48 <= b && b <= 57)  // 0-9
    || b == 42 || b == 45 || b == 46 || b == 95  // * - . _
}

/// Decides `is_unreserved`.
pub fn byte_is_unreserved(b: u8) -> (r: bool)
    ensures
        r == is_unreserved(b),
{
    (65 <= b && b <= 90) || (97 <= b && b <= 122) || (48 <= b && b <= 57) || b == 42 || b == 45
        || b == 46 || b == 95
}

/// The uppercase hexadecimal digit for a value below sixteen.
pub open spec fn hex_digit(n: u8) -> u8 {
    if n < 10 {
        (n + 48) as u8  // 0-9
    } else {
        (n + 55) as u8  // A-F
    }
}

/// The value of a strict (uppercase) hexadecimal digit, if `b` is one.
pub open spec fn hex_value(b: u8) -> Option<u8> {
    if 48 <= b && b <= 57 {
        Some((b - 48) as u8)
    } else if 65 <= b && b <= 70 {
        Some((b - 65 + 10) as u8)
    } else {
        None
    }
}

/// The encoding of one byte: itself, `+`, or a `%`-escape.
pub open spec fn enc_byte(b: u8) -> Seq<u8> {
    if is_unreserved(b) {
        seq![b]
    } else if b == SPACE_BYTE {
        seq![PLUS_BYTE]
    } else {
        seq![PERCENT_BYTE, hex_digit((b / 16) as u8), hex_digit((b % 16) as u8)]
    }
}

/// The form-urlencoded bytes of a key.
pub open spec fn percent_encoded(k: Seq<u8>) -> Seq<u8>
    decreases k.len(),
{
    if k.len() == 0 {
        Seq::empty()
    } else {
        enc_byte(k[0]) + percent_encoded(k.skip(1))
    }
}

/// The bytes of `key=`, the field name the format requires of its
/// structured top-level value.
pub open spec fn key_field_prefix() -> Seq<u8> {
    seq![107u8, 101u8, 121u8, 61u8]
}

/// The full filename form of a key: `key=` plus its encoded bytes.
pub open spec fn encoded_key(k: Seq<u8>) -> Seq<u8> {
    key_field_prefix() + percent_encoded(k)
}

/// The strict inverse of `percent_encoded`: decodes exactly its image.
/// An escape must use uppercase digits and must denote a byte that the
/// encoding would indeed escape, so every key has one filename form only.
pub open spec fn percent_decoded(s: Seq<u8>) -> Option<Seq<u8>>
    decreases s.len(),
{
    if s.len() == 0 {
        Some(Seq::empty())
    } else if is_unreserved(s[0]) {
        match percent_decoded(s.skip(1)) {
            Some(r) => Some(seq![s[0]] + r),
            None => None,
        }
    } else if s[0] == PLUS_BYTE {
        match percent_decoded(s.skip(1)) {
            Some(r) => Some(seq![SPACE_BYTE] + r),
            None => None,
        }
    } else if s[0] == PERCENT_BYTE && s.len() >= 3 {
        match (hex_value(s[1]), hex_value(s[2])) {
            (Some(hi), Some(lo)) => {
                let b = (hi * 16 + lo) as u8;
                if !is_unreserved(b) && b != SPACE_BYTE {
                    match percent_decoded(s.skip(3)) {
                        Some(r) => Some(seq![b] + r),
                        None => None,
                    }
                } else {
                    None
                }
            },
            _ => None,
        }
    } else {
        None
    }
}

/// The key a filename form stands for, if it is well-formed.
pub open spec fn decoded_key(name: Seq<u8>) -> Option<Seq<u8>> {
    if name.len() >= 4 && name.subrange(0, 4) == key_field_prefix() {
        percent_decoded(name.skip(4))
    } else {
        None
    }
}

/// The uppercase hexadecimal digit of a value below sixteen.
fn hex_digit_of(n: u8) -> (r: u8)
    requires
        n < 16,
    ensures
        r == hex_digit(n),
{
    if n < 10 {
        n + 48
    } else {
        n + 55
    }
}

/// The value of a strict hexadecimal digit, if the byte is one.
fn hex_value_of(b: u8) -> (r: Option<u8>)
    ensures
        r == hex_value(b),
{
    if 48 <= b && b <= 57 {
        Some(b - 48)
    } else if 65 <= b && b <= 70 {
        Some(b - 65 + 10)
    } else {
        None
    }
}

/// `percent_encoded`, peeled from the right: encoding `k` then one more
/// byte appends that byte's encoding.
proof fn lemma_percent_encoded_push(k: Seq<u8>, b: u8)
    ensures
        percent_encoded(k.push(b)) == percent_encoded(k) + enc_byte(b),
    decreases k.len(),
{
    if k.len() == 0 {
        reveal_with_fuel(percent_encoded, 2);
        assert(k.push(b).skip(1) =~= Seq::<u8>::empty());
        assert(percent_encoded(k.push(b)) =~= enc_byte(b));
        assert(percent_encoded(k) + enc_byte(b) =~= enc_byte(b));
    } else {
        assert(k.push(b).skip(1) =~= k.skip(1).push(b));
        lemma_percent_encoded_push(k.skip(1), b);
        assert(percent_encoded(k.push(b)) =~= percent_encoded(k) + enc_byte(b));
    }
}

/// A hexadecimal digit reads back as its value.
proof fn lemma_hex_digit_value(n: u8)
    requires
        n < 16,
    ensures
        hex_value(hex_digit(n)) == Some(n),
{
}

/// A strict hexadecimal digit is the digit of its value.
proof fn lemma_hex_value_digit(b: u8, n: u8)
    requires
        hex_value(b) == Some(n),
    ensures
        n < 16 && b == hex_digit(n),
{
}

/// Law: decoding inverts encoding, for every key.
pub proof fn lemma_percent_round_trip(k: Seq<u8>)
    ensures
        percent_decoded(percent_encoded(k)) == Some(k),
    decreases k.len(),
{
    if k.len() == 0 {
        assert(k =~= Seq::<u8>::empty());
        assert(percent_encoded(k) =~= Seq::<u8>::empty());
    } else {
        let b = k[0];
        let rest = k.skip(1);
        lemma_percent_round_trip(rest);
        let s = percent_encoded(k);
        assert(s =~= enc_byte(b) + percent_encoded(rest));
        if is_unreserved(b) {
            assert(s[0] == b);
            assert(s.skip(1) =~= percent_encoded(rest));
            assert(seq![b] + rest =~= k);
        } else if b == SPACE_BYTE {
            assert(s[0] == PLUS_BYTE);
            assert(s.skip(1) =~= percent_encoded(rest));
            assert(seq![SPACE_BYTE] + rest =~= k);
        } else {
            vstd::arithmetic::div_mod::lemma_fundamental_div_mod(b as int, 16);
            let hi = (b / 16) as u8;
            let lo = (b % 16) as u8;
            assert(hi < 16 && lo < 16);
            lemma_hex_digit_value(hi);
            lemma_hex_digit_value(lo);
            assert(s[0] == PERCENT_BYTE && s[1] == hex_digit(hi) && s[2] == hex_digit(lo));
            assert((hi * 16 + lo) as u8 == b);
            assert(s.skip(3) =~= percent_encoded(rest));
            assert(seq![b] + rest =~= k);
        }
    }
}

/// Law: the encoding is canonical — a string that decodes at all is the
/// encoding of what it decodes to, so every key has one filename form only.
pub proof fn lemma_percent_decoded_canonical(s: Seq<u8>, k: Seq<u8>)
    requires
        percent_decoded(s) == Some(k),
    ensures
        s == percent_encoded(k),
    decreases s.len(),
{
    if s.len() == 0 {
        assert(k =~= Seq::<u8>::empty());
        assert(s =~= percent_encoded(k));
    } else if is_unreserved(s[0]) {
        let r = percent_decoded(s.skip(1)).unwrap();
        lemma_percent_decoded_canonical(s.skip(1), r);
        assert(k == seq![s[0]] + r);
        assert(k[0] == s[0]);
        assert(k.skip(1) =~= r);
        assert(s =~= percent_encoded(k));
    } else if s[0] == PLUS_BYTE {
        let r = percent_decoded(s.skip(1)).unwrap();
        lemma_percent_decoded_canonical(s.skip(1), r);
        assert(k == seq![SPACE_BYTE] + r);
        assert(k[0] == SPACE_BYTE);
        assert(k.skip(1) =~= r);
        assert(s =~= percent_encoded(k));
    } else {
        let hi = hex_value(s[1]).unwrap();
        let lo = hex_value(s[2]).unwrap();
        let b = (hi * 16 + lo) as u8;
        let r = percent_decoded(s.skip(3)).unwrap();
        lemma_percent_decoded_canonical(s.skip(3), r);
        lemma_hex_value_digit(s[1], hi);
        lemma_hex_value_digit(s[2], lo);
        vstd::arithmetic::div_mod::lemma_fundamental_div_mod_converse(
            b as int,
            16,
            hi as int,
            lo as int,
        );
        assert(k == seq![b] + r);
        assert(k[0] == b);
        assert(k.skip(1) =~= r);
        assert(enc_byte(b) =~= seq![s[0], s[1], s[2]]);
        assert(s =~= percent_encoded(k));
    }
}

/// Law: a codec round trip returns the key unchanged.
pub proof fn lemma_codec_round_trip(k: Seq<u8>)
    ensures
        decoded_key(encoded_key(k)) == Some(k),
{
    lemma_percent_round_trip(k);
    assert(encoded_key(k).subrange(0, 4) =~= key_field_prefix());
    assert(encoded_key(k).skip(4) =~= percent_encoded(k));
}

/// Law: a well-formed filename form is the encoding of the key it decodes
/// to.
pub proof fn lemma_decoded_key_canonical(name: Seq<u8>, k: Seq<u8>)
    requires
        decoded_key(name) == Some(k),
    ensures
        name == encoded_key(k),
{
    lemma_percent_decoded_canonical(name.skip(4), k);
    assert(name =~= encoded_key(k));
}

/// Law: the codec is injective — distinct keys get distinct filename forms.
pub proof fn lemma_encoded_key_injective(k1: Seq<u8>, k2: Seq<u8>)
    requires
        encoded_key(k1) == encoded_key(k2),
    ensures
        k1 == k2,
{
    lemma_codec_round_trip(k1);
    lemma_codec_round_trip(k2);
}

/// Appends the form-urlencoded bytes of `key` to `out`.
fn append_percent_encoded(out: &mut Vec<u8>, key: &Vec<u8>)
    ensures
        final(out)@ == old(out)@ + percent_encoded(key@),
{
    let ghost prefix = out@;
    let mut i: usize = 0;
    while i < key.len()
        invariant
            i <= key.len(),
            out@ == prefix + percent_encoded(key@.take(i as int)),
        decreases key.len() - i,
    {
        let b = key[i];
        if byte_is_unreserved(b) {
            out.push(b);
        } else if b == SPACE_BYTE {
            out.push(PLUS_BYTE);
        } else {
            out.push(PERCENT_BYTE);
            out.push(hex_digit_of(b / 16));
            out.push(hex_digit_of(b % 16));
        }
        proof {
            lemma_percent_encoded_push(key@.take(i as int), b);
            assert(key@.take(i + 1) =~= key@.take(i as int).push(b));
            assert(out@ =~= prefix + percent_encoded(key@.take(i + 1)));
        }
        i = i + 1;
    }
    proof {
        assert(key@.take(key@.len() as int) =~= key@);
    }
}

/// Appends the full filename form of `key` — `key=` plus its encoded
/// bytes — to `out`.
pub(crate) fn append_encoded_key(out: &mut Vec<u8>, key: &Vec<u8>)
    ensures
        final(out)@ == old(out)@ + encoded_key(key@),
{
    out.push(107);  // k
    out.push(101);  // e
    out.push(121);  // y
    out.push(61);  // =
    proof {
        assert(out@ =~= old(out)@ + key_field_prefix());
    }
    append_percent_encoded(out, key);
    proof {
        assert((old(out)@ + key_field_prefix()) + percent_encoded(key@) =~= old(out)@
            + encoded_key(key@));
    }
}

/// The structured value the string format asks for: a single field named
/// `key` holding the key itself.
#[derive(Debug)]
pub struct UrlEncodeWrapper {
    /// The wrapped key.
    pub key: Vec<u8>,
}

impl UrlEncodeWrapper {
    /// Wraps a key for encoding.
    pub fn new(key: Vec<u8>) -> (w: Self)
        ensures
            w.key@ == key@,
    {
        UrlEncodeWrapper { key }
    }

    /// Serializes the wrapped key to its filename form.
    pub fn encode(&self) -> (r: Vec<u8>)
        ensures
            r@ == encoded_key(self.key@),
    {
        let mut out: Vec<u8> = Vec::new();
        append_encoded_key(&mut out, &self.key);
        proof {
            assert(Seq::<u8>::empty() + encoded_key(self.key@) =~= encoded_key(self.key@));
        }
        out
    }
}

/// Parses a filename form back to the key it stands for, or reports that it
/// is not well-formed.
pub fn decode(name: &Vec<u8>) -> (r: Result<UrlEncodeWrapper, Error>)
    ensures
        match r {
            Ok(w) => decoded_key(name@) == Some(w.key@),
            Err(e) => decoded_key(name@) is None && e == Error::Decoding,
        },
{
    if name.len() < 4 || name[0] != 107 || name[1] != 101 || name[2] != 121 || name[3] != 61 {
        proof {
            if name@.len() >= 4 {
                assert(name@.subrange(0, 4) != key_field_prefix());
            }
        }
        return Err(Error::Decoding);
    }
    proof {
        assert(name@.subrange(0, 4) =~= key_field_prefix());
    }
    let ghost s = name@.skip(4);
    let mut out: Vec<u8> = Vec::new();
    let mut i: usize = 4;
    proof {
        if percent_decoded(s) is Some {
            assert(out@ + percent_decoded(s).unwrap() =~= percent_decoded(s).unwrap());
        }
    }
    while i < name.len()
        invariant
            4 <= i <= name.len(),
            s == name@.skip(4),
            name@.len() >= 4 && name@.subrange(0, 4) == key_field_prefix(),
            percent_decoded(s) == match percent_decoded(name@.skip(i as int)) {
                Some(r) => Some(out@ + r),
                None => None::<Seq<u8>>,
            },
        decreases name.len() - i,
    {
        let ghost si = name@.skip(i as int);
        let b: u8 = name[i];
        assert(si[0] == b);
        if byte_is_unreserved(b) {
            out.push(b);
            proof {
                assert(si.skip(1) =~= name@.skip(i + 1));
                if percent_decoded(name@.skip(i + 1)) is Some {
                    let r = percent_decoded(name@.skip(i + 1)).unwrap();
                    assert(out@ + r =~= out@.drop_last() + (seq![b] + r));
                }
            }
            i = i + 1;
        } else if b == PLUS_BYTE {
            out.push(SPACE_BYTE);
            proof {
                assert(si.skip(1) =~= name@.skip(i + 1));
                if percent_decoded(name@.skip(i + 1)) is Some {
                    let r = percent_decoded(name@.skip(i + 1)).unwrap();
                    assert(out@ + r =~= out@.drop_last() + (seq![SPACE_BYTE] + r));
                }
            }
            i = i + 1;
        } else if b == PERCENT_BYTE && name.len() - i >= 3 {
            assert(si.len() >= 3);
            assert(si[1] == name@[i + 1] && si[2] == name@[i + 2]);
            let hi = hex_value_of(name[i + 1]);
            let lo = hex_value_of(name[i + 2]);
            match (hi, lo) {
                (Some(h), Some(l)) => {
                    let v: u8 = h * 16 + l;
                    if !byte_is_unreserved(v) && v != SPACE_BYTE {
                        out.push(v);
                        proof {
                            assert(si.skip(3) =~= name@.skip(i + 3));
                            if percent_decoded(name@.skip(i + 3)) is Some {
                                let r = percent_decoded(name@.skip(i + 3)).unwrap();
                                assert(out@ + r =~= out@.drop_last() + (seq![v] + r));
                            }
                        }
                        i = i + 3;
                    } else {
                        return Err(Error::Decoding);
                    }
                },
                _ => {
                    return Err(Error::Decoding);
                },
            }
        } else {
            return Err(Error::Decoding);
        }
    }
    proof {
        assert(name@.skip(name@.len() as int) =~= Seq::<u8>::empty());
        assert(out@ + Seq::<u8>::empty() =~= out@);
    }
    Ok(UrlEncodeWrapper { key: out })
}

} // verus!

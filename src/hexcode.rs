use vstd::prelude::*;

verus! {

pub open spec fn is_hex_digit(c: char) -> bool {
    ('0' <= c && c <= '9') || ('A' <= c && c <= 'F') || ('a' <= c && c <= 'f')
}

pub open spec fn is_upper_hex_digit(c: char) -> bool {
    ('0' <= c && c <= '9') || ('A' <= c && c <= 'F')
}

/// The value of a hexadecimal digit of either case.
pub open spec fn hex_value(c: char) -> int {
    if '0' <= c && c <= '9' {
        c as int - '0' as int
    } else if 'A' <= c && c <= 'F' {
        c as int - 'A' as int + 10
    } else {
        c as int - 'a' as int + 10
    }
}

/// `s` is the uppercase hexadecimal text of `b`: two digits per byte, the
/// high half first.
pub open spec fn upper_hex_of(s: Seq<char>, b: Seq<u8>) -> bool {
    &&& s.len() == 2 * b.len()
    &&& forall|i: int|
        0 <= i < b.len() ==> {
            &&& is_upper_hex_digit(s[2 * i])
            &&& is_upper_hex_digit(s[2 * i + 1])
            &&& hex_value(s[2 * i]) == #[trigger] b[i] / 16
            &&& hex_value(s[2 * i + 1]) == b[i] % 16
        }
}

/// `s` is hexadecimal text: an even number of digits of either case.
pub open spec fn hex_decodable(s: Seq<char>) -> bool {
    s.len() % 2 == 0 && forall|i: int| 0 <= i < s.len() ==> is_hex_digit(#[trigger] s[i])
}

/// The bytes that the digit pairs of `s` spell, the high half first.
pub open spec fn hex_decoded(s: Seq<char>) -> Seq<u8> {
    Seq::new((s.len() / 2) as nat, |i: int| (hex_value(s[2 * i]) * 16 + hex_value(s[2 * i + 1])) as u8)
}

/// Relies on `hex::encode_upper`: two digits from `0-9A-F` per byte, the
/// high half first.
#[verifier::external_body]
pub(crate) fn encode_upper(b: &[u8]) -> (r: String)
    ensures
        upper_hex_of(r@, b@),
{
    hex::encode_upper(b)
}

/// Relies on `hex::decode`: it succeeds exactly on an even number of
/// hexadecimal digits of either case, and gives one byte per pair.
#[verifier::external_body]
pub(crate) fn decode(s: &str) -> (r: Option<Vec<u8>>)
    ensures
        r is Some <==> hex_decodable(s@),
        r matches Some(b) ==> b@ == hex_decoded(s@),
{
    hex::decode(s).ok()
}

/// The uppercase hexadecimal text of bytes decodes back to those bytes.
pub proof fn lemma_hex_round_trip(s: Seq<char>, b: Seq<u8>)
    requires
        upper_hex_of(s, b),
    ensures
        hex_decodable(s),
        hex_decoded(s) == b,
{
    assert forall|i: int| 0 <= i < s.len() implies is_hex_digit(#[trigger] s[i]) by {
        let j = i / 2;
        assert(0 <= j < b.len());
        assert(hex_value(s[2 * j]) == b[j] / 16);
        assert(is_upper_hex_digit(s[2 * j]) && is_upper_hex_digit(s[2 * j + 1]));
        if i % 2 == 0 {
            assert(i == 2 * j);
        } else {
            assert(i == 2 * j + 1);
        }
    }
    assert forall|i: int| 0 <= i < b.len() implies #[trigger] hex_decoded(s)[i] == b[i] by {
        assert(hex_value(s[2 * i]) == b[i] / 16);
        assert(hex_value(s[2 * i + 1]) == b[i] % 16);
    }
    assert(hex_decoded(s) =~= b);
}

} // verus!

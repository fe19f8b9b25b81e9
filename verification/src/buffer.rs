//! The byte-sequence value type used for leaves, hashes and hex interchange.
//!
//! A [`Buffer`] owns an ordered sequence of bytes. Buffers compare by
//! byte-wise lexicographic order ([`lex_le`]); the same order sorts leaf sets
//! and canonicalizes sibling pairs before hashing.

use vstd::prelude::*;
use vstd::string::*;
use crate::error::MerkleTreeError;

verus! {

/// Whether `c` is a hex digit (either case).
pub open spec fn is_hex_digit(c: char) -> bool {
    ||| '0' <= c && c <= '9'
    ||| 'a' <= c && c <= 'f'
    ||| 'A' <= c && c <= 'F'
}

/// The lowercase hex digit for a nibble value below 16.
pub open spec fn hex_digit_char(v: u8) -> char
    recommends
        v < 16,
{
    if v == 0 {
        '0'
    } else if v == 1 {
        '1'
    } else if v == 2 {
        '2'
    } else if v == 3 {
        '3'
    } else if v == 4 {
        '4'
    } else if v == 5 {
        '5'
    } else if v == 6 {
        '6'
    } else if v == 7 {
        '7'
    } else if v == 8 {
        '8'
    } else if v == 9 {
        '9'
    } else if v == 10 {
        'a'
    } else if v == 11 {
        'b'
    } else if v == 12 {
        'c'
    } else if v == 13 {
        'd'
    } else if v == 14 {
        'e'
    } else {
        'f'
    }
}

/// The nibble value of a hex digit (either case).
pub open spec fn hex_digit_value(c: char) -> u8
    recommends
        is_hex_digit(c),
{
    if '0' <= c && c <= '9' {
        (c as u8 - '0' as u8) as u8
    } else if 'a' <= c && c <= 'f' {
        (c as u8 - 'a' as u8 + 10) as u8
    } else if 'A' <= c && c <= 'F' {
        (c as u8 - 'A' as u8 + 10) as u8
    } else {
        0
    }
}

/// The lowercase hex rendering of a byte sequence: two digits per byte,
/// high nibble first.
pub open spec fn hex_encode_chars(s: Seq<u8>) -> Seq<char>
    decreases s.len(),
{
    if s.len() == 0 {
        Seq::empty()
    } else {
        seq![hex_digit_char(s[0] / 16), hex_digit_char(s[0] % 16)] + hex_encode_chars(
            s.drop_first(),
        )
    }
}

/// Whether a character sequence is well-formed hex: even length, hex digits
/// throughout.
pub open spec fn is_hex_string(s: Seq<char>) -> bool {
    s.len() % 2 == 0 && (forall|i: int| 0 <= i < s.len() ==> is_hex_digit(#[trigger] s[i]))
}

/// The bytes a hex digit sequence stands for, pairing digits high nibble
/// first.
pub open spec fn hex_decode_chars(s: Seq<char>) -> Seq<u8>
    decreases s.len(),
{
    if s.len() < 2 {
        Seq::empty()
    } else {
        seq![(hex_digit_value(s[0]) * 16 + hex_digit_value(s[1])) as u8] + hex_decode_chars(
            s.skip(2),
        )
    }
}

/// A buffer's full hex rendering: the `0x` prefix, then two lowercase digits
/// per byte.
pub open spec fn hex_str(b: Seq<u8>) -> Seq<char> {
    seq!['0', 'x'] + hex_encode_chars(b)
}

/// The character sequence left after removing an optional leading `0x`.
pub open spec fn strip_hex_prefix(s: Seq<char>) -> Seq<char> {
    if s.len() >= 2 && s[0] == '0' && s[1] == 'x' {
        s.skip(2)
    } else {
        s
    }
}

/// Relies on `hex::encode`: every input byte becomes exactly two lowercase
/// hex digits in order, high nibble first.
#[verifier::external_body]
fn hex_encode(data: &[u8]) -> (r: String)
    ensures
        r@ == hex_encode_chars(data@),
{
    hex::encode(data)
}

#[verifier::external_type_specification]
#[verifier::external_body]
pub struct ExFromHexError(hex::FromHexError);

/// Relies on `hex::decode`: it succeeds exactly on an even number of hex
/// digits of either case, and pairs them into bytes high nibble first.
#[verifier::external_body]
fn hex_decode(s: &str) -> (r: Result<Vec<u8>, hex::FromHexError>)
    ensures
        r is Ok <==> is_hex_string(s@),
        r is Ok ==> r->Ok_0@ == hex_decode_chars(s@),
{
    hex::decode(s)
}

/// Byte-wise lexicographic order on byte sequences: the shorter sequence
/// comes first when one is a prefix of the other.
pub open spec fn lex_le(a: Seq<u8>, b: Seq<u8>) -> bool
    decreases a.len(),
{
    if a.len() == 0 {
        true
    } else if b.len() == 0 {
        false
    } else if a[0] < b[0] {
        true
    } else if a[0] > b[0] {
        false
    } else {
        lex_le(a.drop_first(), b.drop_first())
    }
}

/// `lex_le` is total: any two byte sequences are comparable.
pub proof fn lemma_lex_le_total(a: Seq<u8>, b: Seq<u8>)
    ensures
        lex_le(a, b) || lex_le(b, a),
    decreases a.len(),
{
    if a.len() != 0 && b.len() != 0 && a[0] == b[0] {
        lemma_lex_le_total(a.drop_first(), b.drop_first());
    }
}

/// `lex_le` is antisymmetric: mutually ordered sequences are equal.
pub proof fn lemma_lex_le_antisymmetric(a: Seq<u8>, b: Seq<u8>)
    requires
        lex_le(a, b),
        lex_le(b, a),
    ensures
        a == b,
    decreases a.len(),
{
    if a.len() == 0 {
        assert(a =~= b);
    } else {
        lemma_lex_le_antisymmetric(a.drop_first(), b.drop_first());
        assert(a =~= seq![a[0]] + a.drop_first());
        assert(b =~= seq![b[0]] + b.drop_first());
    }
}

/// `lex_le` is transitive.
pub proof fn lemma_lex_le_transitive(a: Seq<u8>, b: Seq<u8>, c: Seq<u8>)
    requires
        lex_le(a, b),
        lex_le(b, c),
    ensures
        lex_le(a, c),
    decreases a.len(),
{
    if a.len() != 0 && b.len() != 0 && c.len() != 0 && a[0] == b[0] && b[0] == c[0] {
        lemma_lex_le_transitive(a.drop_first(), b.drop_first(), c.drop_first());
    }
}

/// The payloads of a sequence of buffers, as a sequence of byte sequences.
pub open spec fn payloads(s: Seq<Buffer>) -> Seq<Seq<u8>> {
    s.map_values(|b: Buffer| b@)
}

/// An immutable byte payload. The view of a `Buffer` is its byte sequence.
#[derive(Debug)]
pub struct Buffer {
    pub payload: Vec<u8>,
}

impl View for Buffer {
    type V = Seq<u8>;

    open spec fn view(&self) -> Seq<u8> {
        self.payload@
    }
}

impl Clone for Buffer {
    fn clone(&self) -> (r: Buffer)
        ensures
            r@ == self@,
    {
        Buffer { payload: self.payload.clone() }
    }
}

impl PartialEq for Buffer {
    fn eq(&self, other: &Buffer) -> (r: bool) {
        bytes_eq(&self.payload, &other.payload)
    }
}

impl vstd::std_specs::cmp::PartialEqSpecImpl for Buffer {
    open spec fn obeys_eq_spec() -> bool {
        true
    }

    open spec fn eq_spec(&self, other: &Buffer) -> bool {
        self@ == other@
    }
}

impl Eq for Buffer {

}

impl Default for Buffer {
    /// The default buffer is the zero-length buffer.
    fn default() -> (r: Buffer)
        ensures
            r@ == Seq::<u8>::empty(),
    {
        Buffer::empty()
    }
}

/// Byte-for-byte equality of two byte vectors.
pub fn bytes_eq(a: &Vec<u8>, b: &Vec<u8>) -> (r: bool)
    ensures
        r == (a@ == b@),
{
    if a.len() != b.len() {
        assert(a@ != b@);
        return false;
    }
    let n = a.len();
    let mut i: usize = 0;
    while i < n
        invariant
            n == a@.len() == b@.len(),
            i <= n,
            forall|j: int| 0 <= j < i ==> a@[j] == b@[j],
        decreases n - i,
    {
        if a[i] != b[i] {
            return false;
        }
        i += 1;
    }
    assert(a@ =~= b@);
    true
}

impl Buffer {
    /// A buffer that owns the given bytes.
    pub fn new(payload: Vec<u8>) -> (r: Self)
        ensures
            r@ == payload@,
    {
        Self { payload }
    }

    /// The zero-length buffer.
    pub fn empty() -> (r: Self)
        ensures
            r@ == Seq::<u8>::empty(),
    {
        let r = Self { payload: Vec::new() };
        assert(r@ =~= Seq::<u8>::empty());
        r
    }

    /// How many bytes the buffer holds.
    pub fn length(&self) -> (r: usize)
        ensures
            r == self@.len(),
    {
        self.payload.len()
    }

    /// Whether `self` precedes `other` (or equals it) in byte-wise
    /// lexicographic order.
    pub fn le(&self, other: &Buffer) -> (r: bool)
        ensures
            r == lex_le(self@, other@),
    {
        let n = if self.payload.len() <= other.payload.len() {
            self.payload.len()
        } else {
            other.payload.len()
        };
        let mut i: usize = 0;
        proof {
            assert(self@.skip(0) =~= self@);
            assert(other@.skip(0) =~= other@);
        }
        while i < n
            invariant
                n <= self@.len(),
                n <= other@.len(),
                i <= n,
                lex_le(self@, other@) == lex_le(self@.skip(i as int), other@.skip(i as int)),
            decreases n - i,
        {
            let x = self.payload[i];
            let y = other.payload[i];
            proof {
                assert(self@.skip(i as int)[0] == self@[i as int]);
                assert(other@.skip(i as int)[0] == other@[i as int]);
                assert(self@.skip(i as int).len() > 0);
                assert(other@.skip(i as int).len() > 0);
            }
            if x < y {
                proof {
                    assert(lex_le(self@.skip(i as int), other@.skip(i as int)));
                }
                return true;
            }
            if x > y {
                proof {
                    assert(!lex_le(self@.skip(i as int), other@.skip(i as int)));
                }
                return false;
            }
            proof {
                assert(self@.skip(i as int).drop_first() =~= self@.skip(i + 1));
                assert(other@.skip(i as int).drop_first() =~= other@.skip(i + 1));
            }
            i += 1;
        }
        proof {
            if self@.len() <= other@.len() {
                assert(self@.skip(i as int) =~= Seq::<u8>::empty());
            } else {
                assert(other@.skip(i as int) =~= Seq::<u8>::empty());
                assert(self@.skip(i as int).len() > 0);
            }
        }
        self.payload.len() <= other.payload.len()
    }

    /// Extends the buffer with the given bytes in order; the returned
    /// reference lets callers chain further appends.
    pub fn append(&mut self, data: &[u8]) -> (ret: &mut Buffer)
        ensures
            (*ret)@ == old(self)@ + data@,
            *final(self) == *final(ret),
    {
        let n = data.len();
        let mut j: usize = 0;
        while j < n
            invariant
                n == data@.len(),
                j <= n,
                self@ == old(self)@ + data@.take(j as int),
            decreases n - j,
        {
            self.payload.push(data[j]);
            proof {
                assert(old(self)@ + data@.take(j + 1) =~= (old(self)@ + data@.take(j as int)).push(
                    data@[j as int],
                ));
            }
            j += 1;
        }
        proof {
            assert(data@.take(n as int) =~= data@);
        }
        self
    }

    /// The buffer's hex rendering: `0x`, then two lowercase digits per byte.
    pub fn to_hex(&self) -> (r: String)
        ensures
            r@ == hex_str(self@),
    {
        let enc = hex_encode(self.payload.as_slice());
        let prefix = "0x";
        proof {
            reveal_strlit("0x");
            assert(prefix@ =~= seq!['0', 'x']);
        }
        let r = String::from_str(prefix).concat(enc.as_str());
        r
    }

    /// Parses a hex string, with an optional `0x` prefix, into a buffer.
    /// Fails exactly when what follows the prefix is not an even number of
    /// hex digits.
    pub fn from_hex(s: &str) -> (r: Result<Buffer, MerkleTreeError>)
        ensures
            r is Ok <==> is_hex_string(strip_hex_prefix(s@)),
            r is Ok ==> r->Ok_0@ == hex_decode_chars(strip_hex_prefix(s@)),
            r is Err ==> r->Err_0 == MerkleTreeError::FromHexError,
    {
        let n = s.unicode_len();
        let has_prefix = n >= 2 && s.get_char(0) == '0' && s.get_char(1) == 'x';
        let stripped: &str = if has_prefix {
            let t = s.substring_char(2, n);
            proof {
                assert(t@ =~= s@.skip(2));
            }
            t
        } else {
            s
        };
        proof {
            assert(stripped@ == strip_hex_prefix(s@));
        }
        match hex_decode(stripped) {
            Ok(v) => Ok(Buffer::new(v)),
            Err(_) => Err(MerkleTreeError::FromHexError),
        }
    }

    /// Joins the payloads of the given buffers in argument order.
    pub fn concat(combined: Vec<Buffer>) -> (r: Buffer)
        ensures
            r@ == payloads(combined@).flatten(),
    {
        let mut buffer = Buffer::empty();
        let n = combined.len();
        let mut i: usize = 0;
        proof {
            assert(payloads(combined@.take(0)) =~= Seq::<Seq<u8>>::empty());
            assert(buffer@ =~= payloads(combined@.take(0)).flatten());
        }
        while i < n
            invariant
                n == combined@.len(),
                i <= n,
                buffer@ == payloads(combined@.take(i as int)).flatten(),
            decreases n - i,
        {
            let item = &combined[i];
            buffer.append(item.payload.as_slice());
            proof {
                let prefix = payloads(combined@.take(i as int));
                let next = payloads(combined@.take(i + 1));
                assert(combined@.take(i + 1) =~= combined@.take(i as int).push(
                    combined@[i as int],
                ));
                assert(next =~= prefix.push(combined@[i as int]@));
                prefix.lemma_flatten_push(combined@[i as int]@);
            }
            i += 1;
        }
        proof {
            assert(combined@.take(n as int) =~= combined@);
        }
        buffer
    }
}

/// A lowercase hex rendering is well-formed hex: even length, digits
/// throughout.
pub proof fn lemma_hex_encode_valid(b: Seq<u8>)
    ensures
        is_hex_string(hex_encode_chars(b)),
    decreases b.len(),
{
    if b.len() != 0 {
        lemma_hex_encode_valid(b.drop_first());
    }
}

/// Decoding a lowercase hex rendering gives back the bytes it was made from.
pub proof fn lemma_hex_decode_encode(b: Seq<u8>)
    ensures
        hex_decode_chars(hex_encode_chars(b)) == b,
    decreases b.len(),
{
    if b.len() == 0 {
        assert(hex_decode_chars(hex_encode_chars(b)) =~= b);
    } else {
        lemma_hex_decode_encode(b.drop_first());
        let s = hex_encode_chars(b);
        assert(s.skip(2) =~= hex_encode_chars(b.drop_first()));
        assert(hex_digit_value(hex_digit_char(b[0] / 16)) == b[0] / 16);
        assert(hex_digit_value(hex_digit_char(b[0] % 16)) == b[0] % 16);
        assert((b[0] / 16) * 16 + b[0] % 16 == b[0]) by (nonlinear_arith);
        assert(hex_decode_chars(s) =~= b);
    }
}

/// Hex round trip: rendering any byte sequence with [`Buffer::to_hex`] and
/// parsing it back with [`Buffer::from_hex`] is guaranteed to succeed and to
/// reconstruct the same bytes.
pub proof fn lemma_hex_round_trip(b: Seq<u8>)
    ensures
        is_hex_string(strip_hex_prefix(hex_str(b))),
        hex_decode_chars(strip_hex_prefix(hex_str(b))) == b,
{
    let s = hex_str(b);
    assert(s[0] == '0' && s[1] == 'x');
    assert(s.skip(2) =~= hex_encode_chars(b));
    lemma_hex_encode_valid(b);
    lemma_hex_decode_encode(b);
}

} // verus!

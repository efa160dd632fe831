//! Fixed-width identifiers, the XOR distance between them, and the
//! common-prefix length that selects a routing-table bucket.
use vstd::prelude::*;

use crate::KEY_LEN;

verus! {

/// Bytewise XOR of two equal-length byte strings.
pub open spec fn xor_bytes(a: Seq<u8>, b: Seq<u8>) -> Seq<u8> {
    Seq::new(a.len(), |i: int| a[i] ^ b[i])
}

/// Number of leading zero bits of a single byte.
pub open spec fn byte_leading_zeros(b: u8) -> int {
    if b >= 0x80 {
        0
    } else if b >= 0x40 {
        1
    } else if b >= 0x20 {
        2
    } else if b >= 0x10 {
        3
    } else if b >= 0x08 {
        4
    } else if b >= 0x04 {
        5
    } else if b >= 0x02 {
        6
    } else if b >= 0x01 {
        7
    } else {
        8
    }
}

/// Number of leading zero bits of a byte string, most-significant byte first.
pub open spec fn leading_zero_bits(s: Seq<u8>) -> int
    decreases s.len(),
{
    if s.len() == 0 {
        0
    } else if s[0] == 0 {
        8 + leading_zero_bits(s.drop_first())
    } else {
        byte_leading_zeros(s[0])
    }
}

/// Bucket index of a distance: the number of leading zero bits, except that
/// the all-zero distance (a node's distance to itself) falls in the terminal
/// bucket.
pub open spec fn prefix_of(d: Seq<u8>) -> int {
    if leading_zero_bits(d) >= KEY_LEN * 8 {
        KEY_LEN * 8 - 1
    } else {
        leading_zero_bits(d)
    }
}

/// Lexicographic order on byte strings; on equal-length strings this is the
/// order of the big-endian unsigned integers they denote.
pub open spec fn lex_le(a: Seq<u8>, b: Seq<u8>) -> bool
    decreases a.len(),
{
    if a.len() == 0 {
        true
    } else if b.len() == 0 {
        false
    } else if a[0] < b[0] {
        true
    } else if a[0] > b[0] {
        false
    } else {
        lex_le(a.drop_first(), b.drop_first())
    }
}

/// Name for the SHA-1 digest of a string in lowercase hexadecimal form:
/// a pure function of the input alone.
pub uninterp spec fn sha1_hex_of(s: Seq<char>) -> Seq<u8>;

/// Whether a character is a hexadecimal digit.
pub open spec fn is_hex_digit(c: char) -> bool {
    ('0' <= c && c <= '9') || ('a' <= c && c <= 'f') || ('A' <= c && c <= 'F')
}

/// Numeric value of a hexadecimal digit.
pub open spec fn hex_val(c: char) -> int {
    if '0' <= c && c <= '9' {
        c as int - '0' as int
    } else if 'a' <= c && c <= 'f' {
        c as int - 'a' as int + 10
    } else {
        c as int - 'A' as int + 10
    }
}

/// The identifier bytes denoted by a hexadecimal string: pairs of digits
/// become bytes, and missing trailing pairs are zero.
pub open spec fn hex_decoded_padded(s: Seq<char>) -> Seq<u8> {
    Seq::new(
        KEY_LEN as nat,
        |i: int|
            if 2 * i < s.len() {
                (16 * hex_val(s[2 * i]) + hex_val(s[2 * i + 1])) as u8
            } else {
                0u8
            },
    )
}

/// An identifier: a byte string of length [`KEY_LEN`]. Identifiers address
/// both nodes and stored values.
#[derive(Clone, Debug)]
pub struct Key {
    bytes: Vec<u8>,
}

/// The XOR distance between two identifiers, as a byte string of length
/// [`KEY_LEN`].
#[derive(Clone, Debug)]
pub struct Distance {
    bytes: Vec<u8>,
}

impl View for Key {
    type V = Seq<u8>;

    closed spec fn view(&self) -> Seq<u8> {
        self.bytes@
    }
}

impl DeepView for Key {
    type V = Seq<u8>;

    open spec fn deep_view(&self) -> Seq<u8> {
        self@
    }
}

impl View for Distance {
    type V = Seq<u8>;

    closed spec fn view(&self) -> Seq<u8> {
        self.bytes@
    }
}

impl Key {
    /// A well-formed identifier is exactly [`KEY_LEN`] bytes long.
    pub open spec fn wf(&self) -> bool {
        self@.len() == KEY_LEN
    }

    /// Builds an identifier from raw bytes; rejects any length but [`KEY_LEN`].
    pub fn from_bytes(bytes: Vec<u8>) -> (r: Option<Key>)
        ensures
            bytes@.len() == KEY_LEN ==> (r matches Some(k) && k@ == bytes@ && k.wf()),
            bytes@.len() != KEY_LEN ==> r is None,
    {
        if bytes.len() == KEY_LEN {
            Some(Key { bytes })
        } else {
            None
        }
    }

    /// The identifier's bytes.
    pub fn as_bytes(&self) -> (r: &Vec<u8>)
        ensures
            r@ == self@,
    {
        &self.bytes
    }

    /// An independent copy of the identifier.
    pub fn dup(&self) -> (r: Key)
        ensures
            r@ == self@,
    {
        let bytes = self.bytes.clone();
        proof {
            assert forall|i: int| 0 <= i < self.bytes@.len() implies bytes@[i]
                == self.bytes@[i] by {}
            assert(bytes@ =~= self.bytes@);
        }
        Key { bytes }
    }

    /// Whether two identifiers hold the same bytes.
    pub fn equals(&self, other: &Key) -> (r: bool)
        ensures
            r == (self@ == other@),
    {
        if self.bytes.len() != other.bytes.len() {
            return false;
        }
        let mut i: usize = 0;
        while i < self.bytes.len()
            invariant
                self@.len() == other@.len(),
                i <= self@.len(),
                forall|j: int| 0 <= j < i ==> self@[j] == other@[j],
            decreases self@.len() - i,
        {
            if self.bytes[i] != other.bytes[i] {
                return false;
            }
            i = i + 1;
        }
        proof {
            assert(self@ =~= other@);
        }
        true
    }

    /// A fresh identifier with uniformly random bytes.
    pub fn random() -> (r: Key)
        ensures
            r.wf(),
    {
        let mut bytes: Vec<u8> = Vec::new();
        let mut i: usize = 0;
        while i < KEY_LEN
            invariant
                i <= KEY_LEN,
                bytes@.len() == i,
            decreases KEY_LEN - i,
        {
            bytes.push(random_u8());
            i = i + 1;
        }
        Key { bytes }
    }

    /// The identifier that names `data`'s location in the keyspace: the
    /// first [`KEY_LEN`] bytes of the hexadecimal form of its SHA-1 digest.
    pub fn hash(data: &str) -> (r: Key)
        ensures
            r@ == sha1_hex_of(data@).take(KEY_LEN as int),
            r.wf(),
    {
        let hex = sha1_hex_bytes(data);
        let mut bytes: Vec<u8> = Vec::new();
        let mut i: usize = 0;
        while i < KEY_LEN
            invariant
                hex@ == sha1_hex_of(data@),
                hex@.len() == 40,
                i <= KEY_LEN,
                bytes@.len() == i,
                forall|j: int| 0 <= j < i ==> bytes@[j] == hex@[j],
            decreases KEY_LEN - i,
        {
            bytes.push(hex[i]);
            i = i + 1;
        }
        proof {
            assert(bytes@ =~= sha1_hex_of(data@).take(KEY_LEN as int));
        }
        Key { bytes }
    }

    /// Parses an identifier written as pairs of hexadecimal digits, most
    /// significant first; shorter strings leave the remaining bytes zero.
    /// Rejects a string with a digit that is not hexadecimal, an odd length,
    /// or more digits than an identifier holds.
    pub fn from_hex(s: &str) -> (r: Option<Key>)
        ensures
            r is Some <==> (s@.len() % 2 == 0 && s@.len() <= 2 * KEY_LEN && (forall|i: int|
                0 <= i < s@.len() ==> is_hex_digit(#[trigger] s@[i]))),
            r matches Some(k) ==> k@ == hex_decoded_padded(s@) && k.wf(),
    {
        let n = s.unicode_len();
        if n % 2 != 0 || n > 2 * KEY_LEN {
            return None;
        }
        let mut bytes: Vec<u8> = Vec::new();
        let mut i: usize = 0;
        while i < n
            invariant
                n == s@.len(),
                n % 2 == 0,
                n <= 2 * KEY_LEN,
                i <= n,
                i % 2 == 0,
                bytes@.len() == i / 2,
                forall|j: int| 0 <= j < i ==> is_hex_digit(#[trigger] s@[j]),
                forall|j: int|
                    0 <= j < i / 2 ==> bytes@[j] == (16 * hex_val(s@[2 * j]) + hex_val(
                        s@[2 * j + 1],
                    )) as u8,
            decreases n - i,
        {
            let hi = s.get_char(i);
            let lo = s.get_char(i + 1);
            let hv = match hex_digit_value(hi) {
                Some(v) => v,
                None => {
                    return None;
                },
            };
            let lv = match hex_digit_value(lo) {
                Some(v) => v,
                None => {
                    return None;
                },
            };
            bytes.push(16 * hv + lv);
            proof {
                assert(is_hex_digit(s@[i as int]));
                assert(is_hex_digit(s@[i as int + 1]));
                assert(bytes@[i as int / 2] == (16 * hex_val(s@[2 * (i as int / 2)]) + hex_val(
                    s@[2 * (i as int / 2) + 1],
                )) as u8);
            }
            i = i + 2;
        }
        while bytes.len() < KEY_LEN
            invariant
                n == s@.len(),
                n % 2 == 0,
                n <= 2 * KEY_LEN,
                n / 2 <= bytes@.len() <= KEY_LEN,
                forall|j: int| 0 <= j < n ==> is_hex_digit(#[trigger] s@[j]),
                forall|j: int|
                    0 <= j < n / 2 ==> bytes@[j] == (16 * hex_val(s@[2 * j]) + hex_val(
                        s@[2 * j + 1],
                    )) as u8,
                forall|j: int| n / 2 <= j < bytes@.len() ==> bytes@[j] == 0u8,
            decreases KEY_LEN - bytes@.len(),
        {
            bytes.push(0);
        }
        proof {
            assert(bytes@ =~= hex_decoded_padded(s@));
        }
        Some(Key { bytes })
    }

    /// The XOR distance from this identifier to another.
    pub fn dist(&self, other: &Key) -> (r: Distance)
        requires
            self.wf(),
            other.wf(),
        ensures
            r@ == xor_bytes(self@, other@),
            r.wf(),
    {
        let mut bytes: Vec<u8> = Vec::new();
        let mut i: usize = 0;
        while i < KEY_LEN
            invariant
                self.wf(),
                other.wf(),
                i <= KEY_LEN,
                bytes@.len() == i,
                forall|j: int| 0 <= j < i ==> bytes@[j] == (self@[j] ^ other@[j]),
            decreases KEY_LEN - i,
        {
            bytes.push(self.bytes[i] ^ other.bytes[i]);
            i = i + 1;
        }
        proof {
            assert(bytes@ =~= xor_bytes(self@, other@));
        }
        Distance { bytes }
    }
}

impl Distance {
    /// A well-formed distance is exactly [`KEY_LEN`] bytes long.
    pub open spec fn wf(&self) -> bool {
        self@.len() == KEY_LEN
    }

    /// Builds a distance from raw bytes; rejects any length but [`KEY_LEN`].
    pub fn from_bytes(bytes: Vec<u8>) -> (r: Option<Distance>)
        ensures
            bytes@.len() == KEY_LEN ==> (r matches Some(d) && d@ == bytes@ && d.wf()),
            bytes@.len() != KEY_LEN ==> r is None,
    {
        if bytes.len() == KEY_LEN {
            Some(Distance { bytes })
        } else {
            None
        }
    }

    /// The distance's bytes.
    pub fn as_bytes(&self) -> (r: &Vec<u8>)
        ensures
            r@ == self@,
    {
        &self.bytes
    }

    /// An independent copy of the distance.
    pub fn dup(&self) -> (r: Distance)
        ensures
            r@ == self@,
    {
        let bytes = self.bytes.clone();
        proof {
            assert forall|i: int| 0 <= i < self.bytes@.len() implies bytes@[i]
                == self.bytes@[i] by {}
            assert(bytes@ =~= self.bytes@);
        }
        Distance { bytes }
    }

    /// The bucket index this distance selects: its number of leading zero
    /// bits, with the all-zero distance placed in the terminal bucket.
    pub fn zeroes_in_prefix(&self) -> (r: usize)
        requires
            self.wf(),
        ensures
            r == prefix_of(self@),
            r < KEY_LEN * 8,
    {
        proof {
            lemma_leading_zero_bits_bounds(self@);
        }
        let mut i: usize = 0;
        while i < KEY_LEN
            invariant
                self.wf(),
                i <= KEY_LEN,
                forall|j: int| 0 <= j < i ==> self@[j] == 0,
            decreases KEY_LEN - i,
        {
            let b = self.bytes[i];
            if b != 0 {
                proof {
                    lemma_leading_zeros_skip(self@, i as int);
                }
                let z: usize = if b >= 0x80 {
                    0
                } else if b >= 0x40 {
                    1
                } else if b >= 0x20 {
                    2
                } else if b >= 0x10 {
                    3
                } else if b >= 0x08 {
                    4
                } else if b >= 0x04 {
                    5
                } else if b >= 0x02 {
                    6
                } else {
                    7
                };
                return i * 8 + z;
            }
            i = i + 1;
        }
        proof {
            lemma_leading_zeros_skip(self@, KEY_LEN as int);
        }
        KEY_LEN * 8 - 1
    }

    /// Whether this distance is at most `other`, comparing as big-endian
    /// unsigned integers.
    pub fn le(&self, other: &Distance) -> (r: bool)
        requires
            self.wf(),
            other.wf(),
        ensures
            r == lex_le(self@, other@),
    {
        proof {
            assert(self@.skip(0) =~= self@);
            assert(other@.skip(0) =~= other@);
        }
        let mut i: usize = 0;
        while i < KEY_LEN
            invariant
                self.wf(),
                other.wf(),
                i <= KEY_LEN,
                forall|j: int| 0 <= j < i ==> self@[j] == other@[j],
                lex_le(self@, other@) == lex_le(self@.skip(i as int), other@.skip(i as int)),
            decreases KEY_LEN - i,
        {
            let a = self.bytes[i];
            let b = other.bytes[i];
            proof {
                lemma_lex_le_step(self@, other@, i as int);
            }
            if a < b {
                return true;
            }
            if a > b {
                return false;
            }
            i = i + 1;
        }
        true
    }
}

/// The numeric value of one hexadecimal digit, or `None` for any other
/// character.
fn hex_digit_value(c: char) -> (r: Option<u8>)
    ensures
        r is Some <==> is_hex_digit(c),
        r matches Some(v) ==> v == hex_val(c) && v <= 15,
{
    let v = c as u32;
    if v >= 48 && v <= 57 {
        Some((v - 48) as u8)
    } else if v >= 97 && v <= 102 {
        Some((v - 97 + 10) as u8)
    } else if v >= 65 && v <= 70 {
        Some((v - 65 + 10) as u8)
    } else {
        None
    }
}

/// Relies on crypto's Sha1 through its Digest trait: `input_str` feeds the
/// string's bytes to the digest and `result_str` returns the 40-character
/// lowercase hexadecimal form of the 20-byte SHA-1 digest, a deterministic
/// function of the input alone.
#[verifier::external_body]
fn sha1_hex_bytes(data: &str) -> (r: Vec<u8>)
    ensures
        r@ == sha1_hex_of(data@),
        r@.len() == 40,
{
    let mut hasher = crypto::sha1::Sha1::new();
    crypto::digest::Digest::input_str(&mut hasher, data);
    crypto::digest::Digest::result_str(&mut hasher).into_bytes()
}

/// Relies on rand::random to draw one byte; nothing is promised of its value.
#[verifier::external_body]
fn random_u8() -> u8 {
    rand::random::<u8>()
}

/// The leading-zero count of a byte string lies between 0 and eight bits per
/// byte.
pub proof fn lemma_leading_zero_bits_bounds(s: Seq<u8>)
    ensures
        0 <= leading_zero_bits(s) <= 8 * s.len(),
        leading_zero_bits(s) == 8 * s.len() ==> forall|i: int| 0 <= i < s.len() ==> s[i] == 0,
    decreases s.len(),
{
    if s.len() > 0 {
        lemma_leading_zero_bits_bounds(s.drop_first());
        if s[0] == 0 && leading_zero_bits(s) == 8 * s.len() {
            assert forall|i: int| 0 <= i < s.len() implies s[i] == 0 by {
                if i > 0 {
                    assert(s.drop_first()[i - 1] == s[i]);
                }
            }
        }
    }
}

/// If the first `i` bytes are zero, the leading-zero count is `8 * i` plus
/// the count over the remainder.
pub proof fn lemma_leading_zeros_skip(s: Seq<u8>, i: int)
    requires
        0 <= i <= s.len(),
        forall|j: int| 0 <= j < i ==> s[j] == 0,
    ensures
        leading_zero_bits(s) == 8 * i + leading_zero_bits(s.skip(i)),
    decreases i,
{
    if i == 0 {
        assert(s.skip(0) =~= s);
    } else {
        assert(s[0] == 0);
        assert(s.drop_first() =~= s.skip(1));
        lemma_leading_zeros_skip(s.skip(1), i - 1);
        assert(s.skip(1).skip(i - 1) =~= s.skip(i));
    }
}

/// Comparing two byte strings that agree on their first `i` bytes comes down
/// to comparing the remainders.
pub proof fn lemma_lex_le_step(a: Seq<u8>, b: Seq<u8>, i: int)
    requires
        0 <= i < a.len(),
        i < b.len(),
        forall|j: int| 0 <= j < i ==> a[j] == b[j],
        lex_le(a, b) == lex_le(a.skip(i), b.skip(i)),
    ensures
        a[i] < b[i] ==> lex_le(a, b),
        a[i] > b[i] ==> !lex_le(a, b),
        a[i] == b[i] ==> lex_le(a, b) == lex_le(a.skip(i + 1), b.skip(i + 1)),
{
    assert(a.skip(i)[0] == a[i]);
    assert(b.skip(i)[0] == b[i]);
    if a[i] == b[i] {
        assert(a.skip(i).drop_first() =~= a.skip(i + 1));
        assert(b.skip(i).drop_first() =~= b.skip(i + 1));
    }
}

/// XOR is symmetric: the distance from `a` to `b` equals the distance from
/// `b` to `a`.
pub proof fn lemma_xor_comm(a: Seq<u8>, b: Seq<u8>)
    requires
        a.len() == b.len(),
    ensures
        xor_bytes(a, b) == xor_bytes(b, a),
{
    assert forall|i: int| 0 <= i < a.len() implies xor_bytes(a, b)[i] == xor_bytes(b, a)[i] by {
        let x = a[i];
        let y = b[i];
        assert((x ^ y) == (y ^ x)) by (bit_vector);
    }
    assert(xor_bytes(a, b) =~= xor_bytes(b, a));
}

/// The distance from an identifier to itself is zero.
pub proof fn lemma_xor_self(a: Seq<u8>)
    ensures
        xor_bytes(a, a) == Seq::new(a.len(), |i: int| 0u8),
{
    assert forall|i: int| 0 <= i < a.len() implies xor_bytes(a, a)[i] == 0u8 by {
        let x = a[i];
        assert((x ^ x) == 0) by (bit_vector);
    }
    assert(xor_bytes(a, a) =~= Seq::new(a.len(), |i: int| 0u8));
}

/// The prefix function is deterministic: equal distances select equal
/// buckets.
pub proof fn lemma_prefix_deterministic(d1: Seq<u8>, d2: Seq<u8>)
    requires
        d1 == d2,
    ensures
        prefix_of(d1) == prefix_of(d2),
{
}

/// The bucket index of a well-formed distance is always in range.
pub proof fn lemma_prefix_range(d: Seq<u8>)
    requires
        d.len() == KEY_LEN,
    ensures
        0 <= prefix_of(d) < KEY_LEN * 8,
{
    lemma_leading_zero_bits_bounds(d);
}

/// `lex_le` is total on byte strings of equal length.
pub proof fn lemma_lex_le_total(a: Seq<u8>, b: Seq<u8>)
    requires
        a.len() == b.len(),
    ensures
        lex_le(a, b) || lex_le(b, a),
        lex_le(a, b) && lex_le(b, a) ==> a == b,
    decreases a.len(),
{
    if a.len() > 0 && a[0] == b[0] {
        lemma_lex_le_total(a.drop_first(), b.drop_first());
        if lex_le(a, b) && lex_le(b, a) {
            assert(a.drop_first() == b.drop_first());
            assert forall|i: int| 0 <= i < a.len() implies a[i] == b[i] by {
                if i > 0 {
                    assert(a.drop_first()[i - 1] == b.drop_first()[i - 1]);
                }
            }
            assert(a =~= b);
        }
    } else if a.len() > 0 {
    } else {
        assert(a =~= b);
    }
}

/// `lex_le` is transitive.
pub proof fn lemma_lex_le_trans(a: Seq<u8>, b: Seq<u8>, c: Seq<u8>)
    requires
        a.len() == b.len(),
        b.len() == c.len(),
        lex_le(a, b),
        lex_le(b, c),
    ensures
        lex_le(a, c),
    decreases a.len(),
{
    if a.len() > 0 {
        if a[0] == b[0] && b[0] == c[0] {
            lemma_lex_le_trans(a.drop_first(), b.drop_first(), c.drop_first());
        }
    }
}

/// `lex_le` is reflexive.
pub proof fn lemma_lex_le_refl(a: Seq<u8>)
    ensures
        lex_le(a, a),
    decreases a.len(),
{
    if a.len() > 0 {
        lemma_lex_le_refl(a.drop_first());
    }
}

/// Index of the first byte string equal to `t` in a list, or `-1`.
pub open spec fn index_of_bytes(s: Seq<Seq<u8>>, t: Seq<u8>) -> int
    decreases s.len(),
{
    if s.len() == 0 {
        -1
    } else if s[0] == t {
        0
    } else if index_of_bytes(s.drop_first(), t) == -1 {
        -1
    } else {
        1 + index_of_bytes(s.drop_first(), t)
    }
}

/// Whether a list of byte strings holds `t`.
pub open spec fn has_bytes(s: Seq<Seq<u8>>, t: Seq<u8>) -> bool {
    index_of_bytes(s, t) >= 0
}

/// The list with the first occurrence of `t` gone; without one, unchanged.
pub open spec fn remove_bytes(s: Seq<Seq<u8>>, t: Seq<u8>) -> Seq<Seq<u8>> {
    let j = index_of_bytes(s, t);
    if j >= 0 {
        s.remove(j)
    } else {
        s
    }
}

/// What [`index_of_bytes`] finds: `-1` exactly when `t` is absent, and
/// otherwise a position holding it.
pub proof fn lemma_index_of_bytes(s: Seq<Seq<u8>>, t: Seq<u8>)
    ensures
        index_of_bytes(s, t) == -1 ==> forall|j: int| 0 <= j < s.len() ==> s[j] != t,
        index_of_bytes(s, t) != -1 ==> 0 <= index_of_bytes(s, t) < s.len() && s[index_of_bytes(
            s,
            t,
        )] == t,
    decreases s.len(),
{
    if s.len() > 0 {
        lemma_index_of_bytes(s.drop_first(), t);
        if index_of_bytes(s, t) == -1 {
            assert forall|j: int| 0 <= j < s.len() implies s[j] != t by {
                if j > 0 {
                    assert(s.drop_first()[j - 1] == s[j]);
                }
            }
        } else if s[0] != t {
            assert(s.drop_first()[index_of_bytes(s.drop_first(), t)] == s[index_of_bytes(s, t)]);
        }
    }
}

/// A list holds `t` exactly when some position holds it.
pub proof fn lemma_has_bytes_iff(s: Seq<Seq<u8>>, t: Seq<u8>)
    ensures
        has_bytes(s, t) <==> exists|i: int| 0 <= i < s.len() && s[i] == t,
{
    lemma_index_of_bytes(s, t);
    if exists|i: int| 0 <= i < s.len() && s[i] == t {
        assert(index_of_bytes(s, t) != -1);
    }
}

/// A scan that rejects every position before `j` and accepts `j` (or runs
/// off the end) computes [`index_of_bytes`].
pub proof fn lemma_index_of_bytes_first(s: Seq<Seq<u8>>, t: Seq<u8>, j: int)
    requires
        0 <= j <= s.len(),
        forall|j2: int| 0 <= j2 < j ==> s[j2] != t,
        j < s.len() ==> s[j] == t,
    ensures
        j == s.len() ==> index_of_bytes(s, t) == -1,
        j < s.len() ==> index_of_bytes(s, t) == j,
    decreases s.len(),
{
    if s.len() > 0 && s[0] != t {
        assert forall|j2: int| 0 <= j2 < j - 1 implies s.drop_first()[j2] != t by {
            assert(s.drop_first()[j2] == s[j2 + 1]);
        }
        if j < s.len() {
            assert(s.drop_first()[j - 1] == s[j]);
        }
        lemma_index_of_bytes_first(s.drop_first(), t, j - 1);
    }
}

} // verus!

//! Fixed-size hashes: byte strings of 4, 20, 32 and 64 bytes with their
//! hexadecimal form.

use vstd::prelude::*;
use vstd::std_specs::convert::FromSpecImpl;
use vstd::string::StringSliceAdditionalSpecFns;

verus! {

/// Why a text is not the hexadecimal form of a hash.
#[derive(Clone, Copy, Debug, PartialEq, Eq)]
pub enum FromHexError {
    /// The byte `c` at position `index` is not a hexadecimal digit.
    InvalidHexCharacter { c: char, index: usize },
    /// The text has an odd number of digits.
    OddLength,
    /// The text has the wrong number of digits for the hash.
    InvalidStringLength,
}

/// The lower-case hexadecimal digit of a number below 16.
pub open spec fn hex_digit(n: u8) -> char {
    if n < 10 {
        (48 + n) as char
    } else {
        (87 + n) as char
    }
}

/// The lower-case hexadecimal form of a byte string: two digits per byte,
/// the high half first.
pub open spec fn hex_chars(bytes: Seq<u8>) -> Seq<char> {
    Seq::new(
        2 * bytes.len(),
        |i: int|
            if i % 2 == 0 {
                hex_digit(bytes[i / 2] / 16)
            } else {
                hex_digit(bytes[i / 2] % 16)
            },
    )
}

/// The value of a hexadecimal digit given as a byte, in either case; `None`
/// for any other byte.
pub open spec fn hex_value(c: u8) -> Option<u8> {
    if 48 <= c <= 57 {
        Some((c - 48) as u8)
    } else if 65 <= c <= 70 {
        Some((c - 55) as u8)
    } else if 97 <= c <= 102 {
        Some((c - 87) as u8)
    } else {
        None
    }
}

/// The position of the first byte of `text` from `from` on that is not a
/// hexadecimal digit; the length of `text` if there is none.
pub open spec fn first_bad(text: Seq<u8>, from: int) -> int
    decreases text.len() - from,
{
    if from < 0 || from >= text.len() {
        text.len() as int
    } else if hex_value(text[from]) is None {
        from
    } else {
        first_bad(text, from + 1)
    }
}

/// What decoding the hexadecimal text `text` gives: the bytes, two digits
/// each; or the reason why it is no such text: an odd length, else the first
/// byte that is not a digit.
pub open spec fn decoded(text: Seq<u8>) -> Result<Seq<u8>, FromHexError> {
    if text.len() % 2 != 0 {
        Err(FromHexError::OddLength)
    } else if first_bad(text, 0) < text.len() {
        Err(
            FromHexError::InvalidHexCharacter {
                c: text[first_bad(text, 0)] as char,
                index: first_bad(text, 0) as usize,
            },
        )
    } else {
        Ok(
            Seq::new(
                text.len() / 2,
                |i: int| (hex_value(text[2 * i])->0 * 16 + hex_value(text[2 * i + 1])->0) as u8,
            ),
        )
    }
}

/// What a call of `hex_decode` gives for `text`: `decoded(text)` with the
/// bytes as a vector.
pub open spec fn decodes_to(text: Seq<u8>, r: Result<Vec<u8>, FromHexError>) -> bool {
    match decoded(text) {
        Ok(bytes) => r matches Ok(v) && v@ == bytes,
        Err(e) => r == Err::<Vec<u8>, FromHexError>(e),
    }
}

/// `hex::encode`: the lower-case hexadecimal form of `data`, two digits per
/// byte with the high half first. Not verified: the contract states what the
/// `hex` crate documents and its source shows.
#[verifier::external_body]
fn hex_encode(data: &[u8]) -> (s: String)
    ensures
        s@ == hex_chars(data@),
{
    hex::encode(data)
}

/// `hex::decode`: the bytes that the hexadecimal text `data` stands for,
/// digits in either case; or the error of the `hex` crate, variant for
/// variant: an odd length, else the first byte that is not a digit with its
/// position. Not verified: the contract states what the `hex` crate
/// documents and its source shows.
#[verifier::external_body]
fn hex_decode(data: &[u8]) -> (r: Result<Vec<u8>, FromHexError>)
    ensures
        decodes_to(data@, r),
{
    match hex::decode(data) {
        Ok(v) => Ok(v),
        Err(hex::FromHexError::InvalidHexCharacter { c, index }) => Err(
            FromHexError::InvalidHexCharacter { c, index },
        ),
        Err(hex::FromHexError::OddLength) => Err(FromHexError::OddLength),
        Err(hex::FromHexError::InvalidStringLength) => Err(FromHexError::InvalidStringLength),
    }
}

/// The array of `N` bytes whose first byte is `v` and whose other bytes are 0.
pub open spec fn lead_byte<const N: usize>(v: u8) -> [u8; N] {
    choose|a: [u8; N]| a@ == Seq::new(N as nat, |i: int| 0u8).update(0, v)
}

/// An array with those bytes is `lead_byte(v)`.
pub proof fn lemma_lead_byte<const N: usize>(v: u8, a: [u8; N])
    requires
        a@ == Seq::new(N as nat, |i: int| 0u8).update(0, v),
    ensures
        a == lead_byte::<N>(v),
{
    let b = lead_byte::<N>(v);
    assert(b@ == a@);
    assert(a =~= b);
}

/// The bytes of `a` in reverse order.
fn reversed_bytes<const N: usize>(a: &[u8; N]) -> (r: [u8; N])
    ensures
        r@ == a@.reverse(),
{
    let mut out = *a;
    let mut i: usize = 0;
    while i < N
        invariant
            i <= N,
            out@.len() == N,
            a@.len() == N,
            forall|k: int| 0 <= k < i ==> out@[k] == a@[N - 1 - k],
        decreases N - i,
    {
        out[i] = a[N - 1 - i];
        i += 1;
    }
    assert(out@ =~= a@.reverse());
    out
}

/// Every byte is 0.
pub open spec fn zero_bytes(bytes: Seq<u8>) -> bool {
    forall|k: int| 0 <= k < bytes.len() ==> bytes[k] == 0
}

/// Whether every byte of `a` is 0.
fn all_zero<const N: usize>(a: &[u8; N]) -> (r: bool)
    ensures
        r == zero_bytes(a@),
{
    let mut i: usize = 0;
    while i < N
        invariant
            i <= N,
            a@.len() == N,
            forall|k: int| 0 <= k < i ==> a@[k] == 0,
        decreases N - i,
    {
        if a[i] != 0 {
            return false;
        }
        i += 1;
    }
    true
}

/// The first `N` bytes of `v`.
fn first_bytes<const N: usize>(v: &[u8]) -> (r: [u8; N])
    requires
        v@.len() >= N,
    ensures
        r@ == v@.take(N as int),
{
    let mut out = [0u8; N];
    let mut i: usize = 0;
    while i < N
        invariant
            i <= N,
            out@.len() == N,
            v@.len() >= N,
            forall|k: int| 0 <= k < i ==> out@[k] == v@[k],
        decreases N - i,
    {
        out[i] = v[i];
        i += 1;
    }
    assert(out@ =~= v@.take(N as int));
    out
}

/// What parsing the hexadecimal text `text` as a hash of `n` bytes gives: the
/// bytes; or the reason why the text is not hexadecimal; or
/// `InvalidStringLength` for a text of another length.
pub open spec fn parsed(text: Seq<u8>, n: nat) -> Result<Seq<u8>, FromHexError> {
    match decoded(text) {
        Ok(bytes) => if bytes.len() == n {
            Ok(bytes)
        } else {
            Err(FromHexError::InvalidStringLength)
        },
        Err(e) => Err(e),
    }
}

/// A hash of 4 bytes.
#[derive(Clone, Debug, PartialEq, Eq, PartialOrd, Ord, Hash)]
pub struct H32(pub [u8; 4]);

impl View for H32 {
    type V = Seq<u8>;

    /// The bytes of the hash.
    open spec fn view(&self) -> Seq<u8> {
        self.0@
    }
}

impl H32 {
    /// The hash of the first 4 bytes of `slc`.
    pub fn from_slice(slc: &[u8]) -> (r: Self)
        requires
            slc@.len() >= 4,
        ensures
            r@ == slc@.take(4),
    {
        H32(first_bytes::<4>(slc))
    }

    /// Parses the hexadecimal form of a hash: 8 digits in either case.
    pub fn from_str(s: &str) -> (r: Result<Self, FromHexError>)
        ensures
            match parsed(s.spec_bytes(), 4) {
                Ok(bytes) => r matches Ok(h) && h@ == bytes,
                Err(e) => r matches Err(e2) && e2 == e,
            },
    {
        match hex_decode(s.as_bytes()) {
            Ok(vec) => {
                if vec.len() == 4 {
                    let h = H32(first_bytes::<4>(vec.as_slice()));
                    assert(vec@.take(4) =~= vec@);
                    Ok(h)
                } else {
                    Err(FromHexError::InvalidStringLength)
                }
            },
            Err(e) => Err(e),
        }
    }

    /// The bytes of the hash.
    pub fn take(self) -> (r: [u8; 4])
        ensures
            r@ == self@,
    {
        self.0
    }

    /// The lower-case hexadecimal form of the hash.
    pub fn tohex(&self) -> (r: String)
        ensures
            r@ == hex_chars(self@),
    {
        hex_encode(self.0.as_slice())
    }

    /// The hash with the bytes in reverse order.
    pub fn reversed(&self) -> (r: Self)
        ensures
            r@ == self@.reverse(),
    {
        H32(reversed_bytes::<4>(&self.0))
    }

    /// The number of bytes of a hash of this kind.
    pub fn size() -> (r: usize)
        ensures
            r == 4,
    {
        4
    }

    /// Whether every byte of the hash is 0.
    pub fn is_zero(&self) -> (r: bool)
        ensures
            r == zero_bytes(self@),
    {
        all_zero::<4>(&self.0)
    }
}

impl Default for H32 {
    /// The hash whose bytes are all 0.
    fn default() -> (r: Self)
        ensures
            r@ == Seq::new(4, |i: int| 0u8),
    {
        let r = H32([0u8; 4]);
        assert(r@ =~= Seq::new(4, |i: int| 0u8));
        r
    }
}

impl FromSpecImpl<[u8; 4]> for H32 {
    open spec fn obeys_from_spec() -> bool {
        true
    }

    open spec fn from_spec(h: [u8; 4]) -> Self {
        H32(h)
    }
}

impl From<[u8; 4]> for H32 {
    /// The hash with the given bytes.
    fn from(h: [u8; 4]) -> (r: Self) {
        H32(h)
    }
}

impl FromSpecImpl<H32> for [u8; 4] {
    open spec fn obeys_from_spec() -> bool {
        true
    }

    open spec fn from_spec(h: H32) -> Self {
        h.0
    }
}

impl From<H32> for [u8; 4] {
    /// The bytes of the hash.
    fn from(h: H32) -> (r: Self) {
        h.0
    }
}

impl FromSpecImpl<u8> for H32 {
    open spec fn obeys_from_spec() -> bool {
        true
    }

    open spec fn from_spec(v: u8) -> Self {
        H32(lead_byte::<4>(v))
    }
}

impl From<u8> for H32 {
    /// The hash whose first byte is `v` and whose other bytes are 0.
    fn from(v: u8) -> (r: Self)
        ensures
            r@ == Seq::new(4, |i: int| 0u8).update(0, v),
    {
        let mut inner = [0u8; 4];
        inner[0] = v;
        let r = H32(inner);
        proof {
            assert(r@ =~= Seq::new(4, |i: int| 0u8).update(0, v));
            lemma_lead_byte::<4>(v, inner);
        }
        r
    }
}

/// A hash of 20 bytes.
#[derive(Clone, Debug, PartialEq, Eq, PartialOrd, Ord, Hash)]
pub struct H160(pub [u8; 20]);

impl View for H160 {
    type V = Seq<u8>;

    /// The bytes of the hash.
    open spec fn view(&self) -> Seq<u8> {
        self.0@
    }
}

impl H160 {
    /// The hash of the first 20 bytes of `slc`.
    pub fn from_slice(slc: &[u8]) -> (r: Self)
        requires
            slc@.len() >= 20,
        ensures
            r@ == slc@.take(20),
    {
        H160(first_bytes::<20>(slc))
    }

    /// Parses the hexadecimal form of a hash: 40 digits in either case.
    pub fn from_str(s: &str) -> (r: Result<Self, FromHexError>)
        ensures
            match parsed(s.spec_bytes(), 20) {
                Ok(bytes) => r matches Ok(h) && h@ == bytes,
                Err(e) => r matches Err(e2) && e2 == e,
            },
    {
        match hex_decode(s.as_bytes()) {
            Ok(vec) => {
                if vec.len() == 20 {
                    let h = H160(first_bytes::<20>(vec.as_slice()));
                    assert(vec@.take(20) =~= vec@);
                    Ok(h)
                } else {
                    Err(FromHexError::InvalidStringLength)
                }
            },
            Err(e) => Err(e),
        }
    }

    /// The bytes of the hash.
    pub fn take(self) -> (r: [u8; 20])
        ensures
            r@ == self@,
    {
        self.0
    }

    /// The lower-case hexadecimal form of the hash.
    pub fn tohex(&self) -> (r: String)
        ensures
            r@ == hex_chars(self@),
    {
        hex_encode(self.0.as_slice())
    }

    /// The hash with the bytes in reverse order.
    pub fn reversed(&self) -> (r: Self)
        ensures
            r@ == self@.reverse(),
    {
        H160(reversed_bytes::<20>(&self.0))
    }

    /// The number of bytes of a hash of this kind.
    pub fn size() -> (r: usize)
        ensures
            r == 20,
    {
        20
    }

    /// Whether every byte of the hash is 0.
    pub fn is_zero(&self) -> (r: bool)
        ensures
            r == zero_bytes(self@),
    {
        all_zero::<20>(&self.0)
    }
}

impl Default for H160 {
    /// The hash whose bytes are all 0.
    fn default() -> (r: Self)
        ensures
            r@ == Seq::new(20, |i: int| 0u8),
    {
        let r = H160([0u8; 20]);
        assert(r@ =~= Seq::new(20, |i: int| 0u8));
        r
    }
}

impl FromSpecImpl<[u8; 20]> for H160 {
    open spec fn obeys_from_spec() -> bool {
        true
    }

    open spec fn from_spec(h: [u8; 20]) -> Self {
        H160(h)
    }
}

impl From<[u8; 20]> for H160 {
    /// The hash with the given bytes.
    fn from(h: [u8; 20]) -> (r: Self) {
        H160(h)
    }
}

impl FromSpecImpl<H160> for [u8; 20] {
    open spec fn obeys_from_spec() -> bool {
        true
    }

    open spec fn from_spec(h: H160) -> Self {
        h.0
    }
}

impl From<H160> for [u8; 20] {
    /// The bytes of the hash.
    fn from(h: H160) -> (r: Self) {
        h.0
    }
}

impl FromSpecImpl<u8> for H160 {
    open spec fn obeys_from_spec() -> bool {
        true
    }

    open spec fn from_spec(v: u8) -> Self {
        H160(lead_byte::<20>(v))
    }
}

impl From<u8> for H160 {
    /// The hash whose first byte is `v` and whose other bytes are 0.
    fn from(v: u8) -> (r: Self)
        ensures
            r@ == Seq::new(20, |i: int| 0u8).update(0, v),
    {
        let mut inner = [0u8; 20];
        inner[0] = v;
        let r = H160(inner);
        proof {
            assert(r@ =~= Seq::new(20, |i: int| 0u8).update(0, v));
            lemma_lead_byte::<20>(v, inner);
        }
        r
    }
}

/// A hash of 32 bytes.
#[derive(Clone, Debug, PartialEq, Eq, PartialOrd, Ord, Hash)]
pub struct H256(pub [u8; 32]);

impl View for H256 {
    type V = Seq<u8>;

    /// The bytes of the hash.
    open spec fn view(&self) -> Seq<u8> {
        self.0@
    }
}

impl H256 {
    /// The hash of the first 32 bytes of `slc`.
    pub fn from_slice(slc: &[u8]) -> (r: Self)
        requires
            slc@.len() >= 32,
        ensures
            r@ == slc@.take(32),
    {
        H256(first_bytes::<32>(slc))
    }

    /// Parses the hexadecimal form of a hash: 64 digits in either case.
    pub fn from_str(s: &str) -> (r: Result<Self, FromHexError>)
        ensures
            match parsed(s.spec_bytes(), 32) {
                Ok(bytes) => r matches Ok(h) && h@ == bytes,
                Err(e) => r matches Err(e2) && e2 == e,
            },
    {
        match hex_decode(s.as_bytes()) {
            Ok(vec) => {
                if vec.len() == 32 {
                    let h = H256(first_bytes::<32>(vec.as_slice()));
                    assert(vec@.take(32) =~= vec@);
                    Ok(h)
                } else {
                    Err(FromHexError::InvalidStringLength)
                }
            },
            Err(e) => Err(e),
        }
    }

    /// The bytes of the hash.
    pub fn take(self) -> (r: [u8; 32])
        ensures
            r@ == self@,
    {
        self.0
    }

    /// The lower-case hexadecimal form of the hash.
    pub fn tohex(&self) -> (r: String)
        ensures
            r@ == hex_chars(self@),
    {
        hex_encode(self.0.as_slice())
    }

    /// The hash with the bytes in reverse order.
    pub fn reversed(&self) -> (r: Self)
        ensures
            r@ == self@.reverse(),
    {
        H256(reversed_bytes::<32>(&self.0))
    }

    /// The number of bytes of a hash of this kind.
    pub fn size() -> (r: usize)
        ensures
            r == 32,
    {
        32
    }

    /// Whether every byte of the hash is 0.
    pub fn is_zero(&self) -> (r: bool)
        ensures
            r == zero_bytes(self@),
    {
        all_zero::<32>(&self.0)
    }
}

impl Default for H256 {
    /// The hash whose bytes are all 0.
    fn default() -> (r: Self)
        ensures
            r@ == Seq::new(32, |i: int| 0u8),
    {
        let r = H256([0u8; 32]);
        assert(r@ =~= Seq::new(32, |i: int| 0u8));
        r
    }
}

impl FromSpecImpl<[u8; 32]> for H256 {
    open spec fn obeys_from_spec() -> bool {
        true
    }

    open spec fn from_spec(h: [u8; 32]) -> Self {
        H256(h)
    }
}

impl From<[u8; 32]> for H256 {
    /// The hash with the given bytes.
    fn from(h: [u8; 32]) -> (r: Self) {
        H256(h)
    }
}

impl FromSpecImpl<H256> for [u8; 32] {
    open spec fn obeys_from_spec() -> bool {
        true
    }

    open spec fn from_spec(h: H256) -> Self {
        h.0
    }
}

impl From<H256> for [u8; 32] {
    /// The bytes of the hash.
    fn from(h: H256) -> (r: Self) {
        h.0
    }
}

impl FromSpecImpl<u8> for H256 {
    open spec fn obeys_from_spec() -> bool {
        true
    }

    open spec fn from_spec(v: u8) -> Self {
        H256(lead_byte::<32>(v))
    }
}

impl From<u8> for H256 {
    /// The hash whose first byte is `v` and whose other bytes are 0.
    fn from(v: u8) -> (r: Self)
        ensures
            r@ == Seq::new(32, |i: int| 0u8).update(0, v),
    {
        let mut inner = [0u8; 32];
        inner[0] = v;
        let r = H256(inner);
        proof {
            assert(r@ =~= Seq::new(32, |i: int| 0u8).update(0, v));
            lemma_lead_byte::<32>(v, inner);
        }
        r
    }
}

impl H256 {
    /// The hash whose hexadecimal form, read with the bytes in reverse
    /// order, is `s`. The text must be the hexadecimal form of 32 bytes.
    pub fn from_reversed_str(s: &'static str) -> (r: Self)
        requires
            parsed(s.spec_bytes(), 32) is Ok,
        ensures
            r@ == parsed(s.spec_bytes(), 32)->Ok_0.reverse(),
    {
        match H256::from_str(s) {
            Ok(h) => h.reversed(),
            Err(_) => H256::default(),
        }
    }

    /// The hexadecimal form of the hash with its bytes in reverse order.
    pub fn to_reversed_str(&self) -> (r: String)
        ensures
            r@ == hex_chars(self@.reverse()),
    {
        self.reversed().tohex()
    }
}

/// A hash of 64 bytes.
#[derive(Clone, Debug, PartialEq, Eq, PartialOrd, Ord, Hash)]
pub struct H512(pub [u8; 64]);

impl View for H512 {
    type V = Seq<u8>;

    /// The bytes of the hash.
    open spec fn view(&self) -> Seq<u8> {
        self.0@
    }
}

impl H512 {
    /// The hash of the first 64 bytes of `slc`.
    pub fn from_slice(slc: &[u8]) -> (r: Self)
        requires
            slc@.len() >= 64,
        ensures
            r@ == slc@.take(64),
    {
        H512(first_bytes::<64>(slc))
    }

    /// Parses the hexadecimal form of a hash: 128 digits in either case.
    pub fn from_str(s: &str) -> (r: Result<Self, FromHexError>)
        ensures
            match parsed(s.spec_bytes(), 64) {
                Ok(bytes) => r matches Ok(h) && h@ == bytes,
                Err(e) => r matches Err(e2) && e2 == e,
            },
    {
        match hex_decode(s.as_bytes()) {
            Ok(vec) => {
                if vec.len() == 64 {
                    let h = H512(first_bytes::<64>(vec.as_slice()));
                    assert(vec@.take(64) =~= vec@);
                    Ok(h)
                } else {
                    Err(FromHexError::InvalidStringLength)
                }
            },
            Err(e) => Err(e),
        }
    }

    /// The bytes of the hash.
    pub fn take(self) -> (r: [u8; 64])
        ensures
            r@ == self@,
    {
        self.0
    }

    /// The lower-case hexadecimal form of the hash.
    pub fn tohex(&self) -> (r: String)
        ensures
            r@ == hex_chars(self@),
    {
        hex_encode(self.0.as_slice())
    }

    /// The hash with the bytes in reverse order.
    pub fn reversed(&self) -> (r: Self)
        ensures
            r@ == self@.reverse(),
    {
        H512(reversed_bytes::<64>(&self.0))
    }

    /// The number of bytes of a hash of this kind.
    pub fn size() -> (r: usize)
        ensures
            r == 64,
    {
        64
    }

    /// Whether every byte of the hash is 0.
    pub fn is_zero(&self) -> (r: bool)
        ensures
            r == zero_bytes(self@),
    {
        all_zero::<64>(&self.0)
    }
}

impl Default for H512 {
    /// The hash whose bytes are all 0.
    fn default() -> (r: Self)
        ensures
            r@ == Seq::new(64, |i: int| 0u8),
    {
        let r = H512([0u8; 64]);
        assert(r@ =~= Seq::new(64, |i: int| 0u8));
        r
    }
}

impl FromSpecImpl<[u8; 64]> for H512 {
    open spec fn obeys_from_spec() -> bool {
        true
    }

    open spec fn from_spec(h: [u8; 64]) -> Self {
        H512(h)
    }
}

impl From<[u8; 64]> for H512 {
    /// The hash with the given bytes.
    fn from(h: [u8; 64]) -> (r: Self) {
        H512(h)
    }
}

impl FromSpecImpl<H512> for [u8; 64] {
    open spec fn obeys_from_spec() -> bool {
        true
    }

    open spec fn from_spec(h: H512) -> Self {
        h.0
    }
}

impl From<H512> for [u8; 64] {
    /// The bytes of the hash.
    fn from(h: H512) -> (r: Self) {
        h.0
    }
}

impl FromSpecImpl<u8> for H512 {
    open spec fn obeys_from_spec() -> bool {
        true
    }

    open spec fn from_spec(v: u8) -> Self {
        H512(lead_byte::<64>(v))
    }
}

impl From<u8> for H512 {
    /// The hash whose first byte is `v` and whose other bytes are 0.
    fn from(v: u8) -> (r: Self)
        ensures
            r@ == Seq::new(64, |i: int| 0u8).update(0, v),
    {
        let mut inner = [0u8; 64];
        inner[0] = v;
        let r = H512(inner);
        proof {
            assert(r@ =~= Seq::new(64, |i: int| 0u8).update(0, v));
            lemma_lead_byte::<64>(v, inner);
        }
        r
    }
}

} // verus!

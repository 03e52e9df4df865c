//! Encryption with XChaCha20-Poly1305, and the keys for it.

use chacha20poly1305::aead::{Aead, AeadCore, KeyInit, OsRng};
use chacha20poly1305::XChaCha20Poly1305;
use rand::RngCore;
use vstd::prelude::*;
use zeroize::Zeroize;
use crate::bytes;
use crate::hexadecimal;

verus! {

pub const NONCE_SIZE: usize = 24;

pub const TAG_SIZE: usize = 16;

pub const KEY_SIZE: usize = 32;

/// The most that can be encrypted at once: the cipher counts blocks of 64 bytes in 32 bits, and
/// the first of them is taken.
pub const MAX_DATA_SIZE: u64 = 274877906816;

/// What goes wrong with keys and encryption.
#[derive(Clone, Copy, Debug, PartialEq, Eq, Structural)]
pub enum CryptoError {
    /// There is nothing to encrypt.
    EmptyData,
    /// There is more than the cipher can take.
    EncryptionFailed,
    /// A blob has no room for a nonce and a tag.
    BlobTooShort { found: usize },
    /// A blob was not made with this key, or has been changed.
    DecryptionFailed,
    /// A key file holds another number of bytes than a key has digits.
    InvalidKeyLength { found: usize },
    /// A key file holds something else than hexadecimal digits.
    InvalidKeyEncoding,
}

/// The ciphertext of `data` with its tag, as `XChaCha20Poly1305` makes it.
pub uninterp spec fn sealed(key: Seq<u8>, nonce: Seq<u8>, data: Seq<u8>) -> Seq<u8>;

/// The data in a ciphertext with its tag, as `XChaCha20Poly1305` finds it; nothing where the
/// tag is wrong.
pub uninterp spec fn opened(key: Seq<u8>, nonce: Seq<u8>, ciphertext: Seq<u8>) -> Option<Seq<u8>>;

/// `XChaCha20Poly1305::encrypt`, with no associated data: within the limit it succeeds, the
/// ciphertext depends on the key, the nonce and the data alone, has the tag behind it, and opens
/// to the data.
#[verifier::external_body]
fn seal(key: &[u8; 32], nonce: &[u8; 24], data: &[u8]) -> (res: Result<Vec<u8>, CryptoError>)
    requires
        data@.len() <= MAX_DATA_SIZE,
    ensures
        match res {
            Ok(ciphertext) => ciphertext@ == sealed(key@, nonce@, data@) && ciphertext@.len()
                == data@.len() + TAG_SIZE && opened(key@, nonce@, ciphertext@) == Some(data@),
            Err(_) => false,
        },
{
    XChaCha20Poly1305::new(key.into()).encrypt(nonce.into(), data).map_err(
        |_| CryptoError::EncryptionFailed,
    )
}

/// `XChaCha20Poly1305::decrypt`, with no associated data: what it gives depends on the key, the
/// nonce and the ciphertext alone, and encrypting it with the same key and nonce gives the
/// ciphertext, since the tag is checked against the ciphertext and the cipher undoes itself. That
/// a ciphertext made with another key, or a changed one, is refused is not claimed: that holds
/// but for a chance too small to meet.
#[verifier::external_body]
fn open(key: &[u8; 32], nonce: &[u8; 24], ciphertext: &[u8]) -> (res: Result<Vec<u8>, CryptoError>)
    requires
        TAG_SIZE <= ciphertext@.len() <= MAX_DATA_SIZE + TAG_SIZE,
    ensures
        match res {
            Ok(data) => opened(key@, nonce@, ciphertext@) == Some(data@) && data@.len() + TAG_SIZE
                == ciphertext@.len() && ciphertext@ == sealed(key@, nonce@, data@),
            Err(e) => opened(key@, nonce@, ciphertext@) == None::<Seq<u8>> && e
                == CryptoError::DecryptionFailed,
        },
{
    XChaCha20Poly1305::new(key.into()).decrypt(nonce.into(), ciphertext).map_err(
        |_| CryptoError::DecryptionFailed,
    )
}

/// `OsRng::fill_bytes` on 32 bytes: random numbers of the operating system. Nothing is claimed
/// of them.
#[verifier::external_body]
fn random_key() -> (key: [u8; 32]) {
    let mut key = [0u8; 32];
    OsRng.fill_bytes(&mut key);
    key
}

/// `XChaCha20Poly1305::generate_nonce`: random numbers of the operating system. Nothing is
/// claimed of them.
#[verifier::external_body]
fn random_nonce() -> (nonce: [u8; 24]) {
    XChaCha20Poly1305::generate_nonce(&mut OsRng).into()
}

/// `Zeroize::zeroize` on an array: every byte is overwritten with zero.
#[verifier::external_body]
fn wipe(key: &mut [u8; 32])
    ensures
        final(key)@ == Seq::new(32, |i: int| 0u8),
    opens_invariants none
    no_unwind
{
    key.zeroize();
}

/// The space characters of Unicode.
pub open spec fn is_space(c: char) -> bool {
    let n = c as int;
    ||| 0x9 <= n <= 0xd
    ||| n == 0x20
    ||| n == 0x85
    ||| n == 0xa0
    ||| n == 0x1680
    ||| 0x2000 <= n <= 0x200a
    ||| n == 0x2028
    ||| n == 0x2029
    ||| n == 0x202f
    ||| n == 0x205f
    ||| n == 0x3000
}

/// A text without the space at its start and its end.
pub open spec fn trimmed(text: Seq<char>) -> Seq<char>
    decreases text.len(),
{
    if text.len() == 0 {
        text
    } else if is_space(text[0]) {
        trimmed(text.skip(1))
    } else if is_space(text.last()) {
        trimmed(text.drop_last())
    } else {
        text
    }
}

/// Whether a character is space.
fn is_space_char(c: char) -> (res: bool)
    ensures
        res == is_space(c),
{
    let n: u32 = c as u32;
    (0x9 <= n && n <= 0xd) || n == 0x20 || n == 0x85 || n == 0xa0 || n == 0x1680 || (0x2000 <= n
        && n <= 0x200a) || n == 0x2028 || n == 0x2029 || n == 0x202f || n == 0x205f || n == 0x3000
}

/// Takes the space at its start and its end off a text.
fn trim(text: &str) -> (res: &str)
    ensures
        res@ == trimmed(text@),
{
    let mut start: usize = 0;
    let mut end: usize = text.unicode_len();
    assert(text@.subrange(0, end as int) =~= text@);
    while start < end && is_space_char(text.get_char(start))
        invariant
            start <= end == text@.len(),
            trimmed(text@) == trimmed(text@.subrange(start as int, end as int)),
        decreases end - start,
    {
        assert(text@.subrange(start as int, end as int).skip(1) =~= text@.subrange(
            start + 1,
            end as int,
        ));
        start = start + 1;
    }
    while start < end && is_space_char(text.get_char(end - 1))
        invariant
            start <= end <= text@.len(),
            start < end ==> !is_space(text@[start as int]),
            trimmed(text@) == trimmed(text@.subrange(start as int, end as int)),
        decreases end - start,
    {
        assert(text@.subrange(start as int, end as int).drop_last() =~= text@.subrange(
            start as int,
            end - 1,
        ));
        end = end - 1;
    }
    text.substring_char(start, end)
}

/// A key.
pub struct KeyContext {
    key_bytes: [u8; 32],
}

/// What a key file says: 64 hexadecimal digits, with space around them.
pub open spec fn key_in(text: Seq<char>) -> Result<Seq<u8>, CryptoError> {
    let digits = vstd::utf8::encode_utf8(trimmed(text));
    if digits.len() != 2 * KEY_SIZE {
        Err(CryptoError::InvalidKeyLength { found: digits.len() as usize })
    } else if !hexadecimal::all_digits(digits) {
        Err(CryptoError::InvalidKeyEncoding)
    } else {
        Ok(hexadecimal::digits_value(digits))
    }
}

impl View for KeyContext {
    type V = Seq<u8>;

    closed spec fn view(&self) -> Seq<u8> {
        self.key_bytes@
    }
}

impl KeyContext {
    /// A new key of random bytes. Which bytes they are is left to chance.
    pub fn new_random() -> (res: Self)
        ensures
            res@.len() == KEY_SIZE,
    {
        Self::from_bytes(random_key())
    }

    pub fn from_bytes(key: [u8; 32]) -> (res: Self)
        ensures
            res@ == key@,
            res@.len() == KEY_SIZE,
    {
        KeyContext { key_bytes: key }
    }

    /// The key that a key file holds.
    pub fn from_hex(text: &str) -> (res: Result<Self, CryptoError>)
        ensures
            match res {
                Ok(key) => key_in(text@) == Ok::<Seq<u8>, CryptoError>(key@),
                Err(e) => key_in(text@) == Err::<Seq<u8>, CryptoError>(e),
            },
    {
        let digits: &[u8] = trim(text).as_bytes();
        let found: usize = digits.len();
        if found != 2 * KEY_SIZE {
            return Err(CryptoError::InvalidKeyLength { found });
        }
        match hexadecimal::hex_decode(digits) {
            Ok(key) => Ok(Self::from_bytes(key)),
            Err(_) => Err(CryptoError::InvalidKeyEncoding),
        }
    }

    /// What a key file holds for this key.
    pub fn to_hex(&self) -> (res: String)
        ensures
            res@ == hexadecimal::digits(self@),
    {
        hexadecimal::hex_encode(self.key_bytes.as_slice())
    }

    pub fn key_bytes(&self) -> (res: &[u8; 32])
        ensures
            res@ == self@,
    {
        &self.key_bytes
    }

    /// Overwrites the key.
    pub fn zeroize(&mut self)
        ensures
            final(self)@ == Seq::new(32, |i: int| 0u8),
    {
        wipe(&mut self.key_bytes);
    }
}

impl Drop for KeyContext {
    /// Overwrites the key before its memory is given back.
    fn drop(&mut self)
        ensures
            final(self)@ == Seq::new(32, |i: int| 0u8),
        opens_invariants none
        no_unwind
    {
        wipe(&mut self.key_bytes);
    }
}

proof fn lemma_digit_is_no_space(data: Seq<u8>, i: int)
    requires
        0 <= i < 2 * data.len(),
    ensures
        !is_space(hexadecimal::digits(data)[i]),
{
}

/// Loading the key file that was saved for a key gives the key.
pub proof fn law_key_file_round_trip(key: Seq<u8>)
    requires
        key.len() == KEY_SIZE,
    ensures
        key_in(hexadecimal::digits(key)) == Ok::<Seq<u8>, CryptoError>(key),
{
    let text = hexadecimal::digits(key);
    lemma_digit_is_no_space(key, 0);
    lemma_digit_is_no_space(key, text.len() - 1);
    assert(trimmed(text) == text);
    hexadecimal::law_digits_round_trip(key);
}

/// An encrypted chunk: the nonce, then the ciphertext with its tag.
pub open spec fn blob_of(key: Seq<u8>, nonce: Seq<u8>, data: Seq<u8>) -> Seq<u8> {
    nonce + sealed(key, nonce, data)
}

/// The data in an encrypted chunk.
pub open spec fn decrypted(key: Seq<u8>, blob: Seq<u8>) -> Result<Seq<u8>, CryptoError> {
    if blob.len() < NONCE_SIZE + TAG_SIZE {
        Err(CryptoError::BlobTooShort { found: blob.len() as usize })
    } else if blob.len() > NONCE_SIZE + TAG_SIZE + MAX_DATA_SIZE {
        Err(CryptoError::DecryptionFailed)
    } else {
        match opened(key, blob.take(NONCE_SIZE as int), blob.skip(NONCE_SIZE as int)) {
            Some(data) => Ok(data),
            None => Err(CryptoError::DecryptionFailed),
        }
    }
}

/// The error that decides before any encryption, if there is one.
pub open spec fn encryption_error(size: nat) -> Option<CryptoError> {
    if size == 0 {
        Some(CryptoError::EmptyData)
    } else if size > MAX_DATA_SIZE {
        Some(CryptoError::EncryptionFailed)
    } else {
        None
    }
}

/// What trimming leaves stands in the text with only space before and behind it, and neither
/// starts nor ends with space. Space is what Unicode says it is.
pub proof fn law_trimmed(text: Seq<char>) -> (res: (int, int))
    ensures
        ({
            let (from, to) = res;
            let is_white = |c: char|
                {
                    let n = c as int;
                    9 <= n <= 13 || n == 32 || n == 0x85 || n == 0xa0 || n == 0x1680 || 0x2000 <= n
                        <= 0x200a || n == 0x2028 || n == 0x2029 || n == 0x202f || n == 0x205f || n
                        == 0x3000
                };
            &&& 0 <= from <= to <= text.len()
            &&& trimmed(text) == text.subrange(from, to)
            &&& forall|i: int| 0 <= i < from ==> is_white(#[trigger] text[i])
            &&& forall|i: int| to <= i < text.len() ==> is_white(#[trigger] text[i])
            &&& from < to ==> !is_white(text[from]) && !is_white(text[to - 1])
        }),
    decreases text.len(),
{
    if text.len() == 0 {
        assert(text.subrange(0, 0) =~= text);
        (0, 0)
    } else if is_space(text[0]) {
        let rest = text.skip(1);
        let (from, to) = law_trimmed(rest);
        assert(rest.subrange(from, to) =~= text.subrange(from + 1, to + 1));
        assert forall|i: int| 0 <= i < from + 1 implies is_space(#[trigger] text[i]) by {
            if i > 0 {
                assert(rest[i - 1] == text[i]);
            }
        }
        assert forall|i: int| to + 1 <= i < text.len() implies is_space(#[trigger] text[i]) by {
            assert(rest[i - 1] == text[i]);
        }
        (from + 1, to + 1)
    } else if is_space(text.last()) {
        let rest = text.drop_last();
        let (from, to) = law_trimmed(rest);
        assert(rest.subrange(from, to) =~= text.subrange(from, to));
        assert forall|i: int| 0 <= i < from implies is_space(#[trigger] text[i]) by {
            assert(rest[i] == text[i]);
        }
        assert forall|i: int| to <= i < text.len() implies is_space(#[trigger] text[i]) by {
            if i < rest.len() {
                assert(rest[i] == text[i]);
            }
        }
        (from, to)
    } else {
        assert(text.subrange(0, text.len() as int) =~= text);
        (0, text.len() as int)
    }
}

/// A key file holds a key exactly where 64 bytes are left once the space around them is gone, and
/// all of them are hexadecimal digits of either case; the digits are the key, two for a byte. Other
/// files are refused for their length first, and then for their digits.
pub proof fn law_key_file(text: Seq<char>)
    ensures
        ({
            let digits = vstd::utf8::encode_utf8(trimmed(text));
            let is_digit = |b: u8| 48 <= b <= 57 || 97 <= b <= 102 || 65 <= b <= 70;
            let value = |b: u8|
                if b <= 57 {
                    b - 48
                } else if b <= 70 {
                    b - 55
                } else {
                    b - 87
                };
            match key_in(text) {
                Ok(key) => {
                    &&& digits.len() == 64
                    &&& key.len() == 32
                    &&& forall|i: int| 0 <= i < 64 ==> is_digit(#[trigger] digits[i])
                    &&& forall|i: int|
                        0 <= i < 32 ==> #[trigger] key[i] == 16 * value(digits[2 * i]) + value(
                            digits[2 * i + 1],
                        )
                },
                Err(CryptoError::InvalidKeyLength { found }) => digits.len() != 64 && (digits.len()
                    <= usize::MAX ==> found == digits.len()),
                Err(CryptoError::InvalidKeyEncoding) => digits.len() == 64 && exists|i: int|
                    0 <= i < 64 && !is_digit(#[trigger] digits[i]),
                Err(_) => false,
            }
        }),
{
    let digits = vstd::utf8::encode_utf8(trimmed(text));
    if digits.len() == 64 && hexadecimal::all_digits(digits) {
        let key = key_in(text)->Ok_0;
        assert forall|i: int| 0 <= i < 32 implies #[trigger] key[i] == 16 * (
        hexadecimal::digit_value(digits[2 * i])->0) + hexadecimal::digit_value(
            digits[2 * i + 1],
        )->0 by {
            assert(hexadecimal::digit_value(digits[2 * i]) is Some);
            assert(hexadecimal::digit_value(digits[2 * i + 1]) is Some);
        }
    } else if digits.len() == 64 {
        let i = choose|i: int|
            0 <= i < digits.len() && !(hexadecimal::digit_value(#[trigger] digits[i]) is Some);
        assert(!(48 <= digits[i] <= 57 || 97 <= digits[i] <= 102 || 65 <= digits[i] <= 70));
    }
}

/// Everything but nothing, and what is more than the cipher can count, can be encrypted: the
/// cipher takes 2^32 - 2 blocks of 64 bytes.
pub proof fn law_what_can_be_encrypted(size: nat)
    ensures
        size == 0 ==> encryption_error(size) == Some(CryptoError::EmptyData),
        0 < size <= 64 * (0x1_0000_0000 - 2) ==> encryption_error(size) == None::<CryptoError>,
        size > 64 * (0x1_0000_0000 - 2) ==> encryption_error(size) == Some(
            CryptoError::EncryptionFailed,
        ),
{
}

/// An encrypted chunk is the nonce, in 24 bytes, and the ciphertext with its tag behind it;
/// decrypting it opens the ciphertext with that nonce. What has no room for a nonce and a tag is
/// refused for that, and what does not open is refused too.
pub proof fn law_blob_layout(key: Seq<u8>, nonce: Seq<u8>, ciphertext: Seq<u8>, data: Seq<u8>)
    requires
        nonce.len() == 24,
        ciphertext.len() <= 64 * (0x1_0000_0000 - 2) + 16,
    ensures
        blob_of(key, nonce, data) == nonce + sealed(key, nonce, data),
        ciphertext.len() < 16 ==> decrypted(key, nonce + ciphertext) == Err::<
            Seq<u8>,
            CryptoError,
        >(CryptoError::BlobTooShort { found: (24 + ciphertext.len()) as usize }),
        ciphertext.len() >= 16 ==> decrypted(key, nonce + ciphertext) == match opened(
            key,
            nonce,
            ciphertext,
        ) {
            Some(content) => Ok::<Seq<u8>, CryptoError>(content),
            None => Err::<Seq<u8>, CryptoError>(CryptoError::DecryptionFailed),
        },
{
    let blob = nonce + ciphertext;
    assert(blob.take(24) =~= nonce);
    assert(blob.skip(24) =~= ciphertext);
}

/// A key that was saved is loaded again whatever space stands around it in the file.
pub proof fn law_key_file_allows_space(front: Seq<char>, key: Seq<u8>, back: Seq<char>)
    requires
        key.len() == 32,
        forall|i: int| 0 <= i < front.len() ==> is_space(#[trigger] front[i]),
        forall|i: int| 0 <= i < back.len() ==> is_space(#[trigger] back[i]),
    ensures
        key_in(front + hexadecimal::digits(key) + back) == Ok::<Seq<u8>, CryptoError>(key),
    decreases front.len() + back.len(),
{
    let text = hexadecimal::digits(key);
    let all = front + text + back;
    lemma_digit_is_no_space(key, 0);
    lemma_digit_is_no_space(key, text.len() - 1);
    if front.len() > 0 {
        let less = front.skip(1);
        assert(all.skip(1) =~= less + text + back);
        assert(is_space(all[0]));
        assert forall|i: int| 0 <= i < less.len() implies is_space(#[trigger] less[i]) by {
            assert(less[i] == front[i + 1]);
        }
        law_key_file_allows_space(less, key, back);
    } else if back.len() > 0 {
        let less = back.drop_last();
        assert(all[0] == text[0]);
        assert(all.drop_last() =~= front + text + less);
        assert(is_space(back[back.len() - 1]));
        assert(all.last() == back[back.len() - 1]);
        assert forall|i: int| 0 <= i < less.len() implies is_space(#[trigger] less[i]) by {
            assert(less[i] == back[i]);
        }
        law_key_file_allows_space(front, key, less);
    } else {
        assert(all =~= text);
        law_key_file_round_trip(key);
    }
}

/// Encrypts a chunk with a nonce. Decrypting the result with the same key gives the chunk back.
pub fn encrypt_with_nonce(data: &[u8], key: &KeyContext, nonce: &[u8; 24]) -> (res: Result<
    Vec<u8>,
    CryptoError,
>)
    ensures
        match res {
            Ok(blob) => {
                &&& encryption_error(data@.len()) == None::<CryptoError>
                &&& blob@ == blob_of(key@, nonce@, data@)
                &&& blob@.len() == NONCE_SIZE + data@.len() + TAG_SIZE
                &&& decrypted(key@, blob@) == Ok::<Seq<u8>, CryptoError>(data@)
            },
            Err(e) => encryption_error(data@.len()) == Some(e),
        },
{
    if data.len() == 0 {
        return Err(CryptoError::EmptyData);
    }
    if data.len() as u64 > MAX_DATA_SIZE {
        return Err(CryptoError::EncryptionFailed);
    }
    match seal(&key.key_bytes, nonce, data) {
        Ok(ciphertext) => {
            let mut blob: Vec<u8> = Vec::new();
            bytes::push_all(&mut blob, nonce.as_slice());
            bytes::push_all(&mut blob, ciphertext.as_slice());
            proof {
                assert(blob@ =~= nonce@ + ciphertext@);
                assert(blob@.take(NONCE_SIZE as int) =~= nonce@);
                assert(blob@.skip(NONCE_SIZE as int) =~= ciphertext@);
            }
            Ok(blob)
        },
        Err(e) => Err(e),
    }
}

/// Encrypts a chunk with a fresh nonce. Decrypting the result with the same key gives the chunk
/// back.
pub fn encrypt_chunk(data: &[u8], key: &KeyContext) -> (res: Result<Vec<u8>, CryptoError>)
    ensures
        match res {
            Ok(blob) => {
                &&& encryption_error(data@.len()) == None::<CryptoError>
                &&& blob@.len() == NONCE_SIZE + data@.len() + TAG_SIZE
                &&& blob@ == blob_of(key@, blob@.take(NONCE_SIZE as int), data@)
                &&& decrypted(key@, blob@) == Ok::<Seq<u8>, CryptoError>(data@)
            },
            Err(e) => encryption_error(data@.len()) == Some(e),
        },
{
    let nonce: [u8; 24] = random_nonce();
    let res: Result<Vec<u8>, CryptoError> = encrypt_with_nonce(data, key, &nonce);
    proof {
        if res is Ok {
            assert(res->Ok_0@.take(NONCE_SIZE as int) =~= nonce@);
        }
    }
    res
}

/// The first 24 bytes of `blob`.
fn nonce_of(blob: &[u8]) -> (nonce: [u8; 24])
    requires
        blob@.len() >= 24,
    ensures
        nonce@ == blob@.take(24),
{
    let mut nonce: [u8; 24] = [0u8; 24];
    let mut i: usize = 0;
    while i < 24
        invariant
            i <= 24 <= blob@.len(),
            forall|j: int| 0 <= j < i ==> nonce@[j] == blob@[j],
        decreases 24 - i,
    {
        nonce[i] = blob[i];
        i = i + 1;
    }
    assert(nonce@ =~= blob@.take(24));
    nonce
}

/// Decrypts a chunk. What comes out is what a blob with this nonce was made of, and for each
/// nonce only one blob gives it: a change behind the nonce never gives the same chunk.
pub fn decrypt_chunk(blob: &[u8], key: &KeyContext) -> (res: Result<Vec<u8>, CryptoError>)
    ensures
        match res {
            Ok(data) => decrypted(key@, blob@) == Ok::<Seq<u8>, CryptoError>(data@)
                && data@.len() + NONCE_SIZE + TAG_SIZE == blob@.len() && blob@ == blob_of(
                key@,
                blob@.take(NONCE_SIZE as int),
                data@,
            ),
            Err(e) => decrypted(key@, blob@) == Err::<Seq<u8>, CryptoError>(e),
        },
{
    let size: usize = blob.len();
    if size < NONCE_SIZE + TAG_SIZE {
        return Err(CryptoError::BlobTooShort { found: size });
    }
    if (size - NONCE_SIZE - TAG_SIZE) as u64 > MAX_DATA_SIZE {
        return Err(CryptoError::DecryptionFailed);
    }
    let nonce: [u8; 24] = nonce_of(blob);
    let ciphertext: &[u8] = vstd::slice::slice_subrange(blob, NONCE_SIZE, size);
    assert(ciphertext@ =~= blob@.skip(NONCE_SIZE as int));
    assert(nonce@ + ciphertext@ =~= blob@);
    open(&key.key_bytes, &nonce, ciphertext)
}

} // verus!

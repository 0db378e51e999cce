use aes::cipher::generic_array::GenericArray;
use aes::cipher::{BlockDecrypt, BlockEncrypt, KeyInit};
use aes::Aes128;
use vstd::prelude::*;
use vstd::slice::slice_subrange;
use vstd::slice::slice_to_vec;

use crate::padding::{lemma_pad_seq_len, pad, pad_seq, padding_len};

verus! {

/// What `aes::Aes128::encrypt_block` makes of `block` under `key` (both 16 bytes).
pub uninterp spec fn aes128_encrypt_block(key: Seq<u8>, block: Seq<u8>) -> Seq<u8>;

/// What `aes::Aes128::decrypt_block` makes of `block` under `key` (both 16 bytes).
pub uninterp spec fn aes128_decrypt_block(key: Seq<u8>, block: Seq<u8>) -> Seq<u8>;

/// The 16 bytes of the AES-128 encryption of one block.
pub open spec fn block_out(key: Seq<u8>, block: Seq<u8>) -> Seq<u8> {
    Seq::new(16, |j: int| aes128_encrypt_block(key, block)[j])
}

/// The 16 bytes of the AES-128 decryption of one block.
pub open spec fn block_in(key: Seq<u8>, block: Seq<u8>) -> Seq<u8> {
    Seq::new(16, |j: int| aes128_decrypt_block(key, block)[j])
}

/// Encrypts one 16-byte block with `aes::Aes128` keyed by the 16-byte `key`
/// (`KeyInit::new`, then `BlockEncrypt::encrypt_block`).
/// Trusted: the result is the named AES-128 encryption of the block, 16 bytes long.
#[verifier::external_body]
fn encrypt_block(key: &[u8], block: &[u8]) -> (out: Vec<u8>)
    requires
        key@.len() == 16,
        block@.len() == 16,
    ensures
        out@ == aes128_encrypt_block(key@, block@),
        out@.len() == 16,
{
    let cipher = Aes128::new(GenericArray::from_slice(key));
    let mut b = GenericArray::clone_from_slice(block);
    cipher.encrypt_block(&mut b);
    b.to_vec()
}

/// Decrypts one 16-byte block with `aes::Aes128` keyed by the 16-byte `key`
/// (`KeyInit::new`, then `BlockDecrypt::decrypt_block`).
/// Trusted: the result is the named AES-128 decryption of the block, 16 bytes
/// long, and it is the block `p` whenever `block` is the encryption of `p`
/// under the same key (decryption undoes encryption, as the crate documents).
#[verifier::external_body]
fn decrypt_block(key: &[u8], block: &[u8]) -> (out: Vec<u8>)
    requires
        key@.len() == 16,
        block@.len() == 16,
    ensures
        out@ == aes128_decrypt_block(key@, block@),
        out@.len() == 16,
        forall|p: Seq<u8>| p.len() == 16 && #[trigger] block_out(key@, p) == block@ ==> out@ == p,
{
    let cipher = Aes128::new(GenericArray::from_slice(key));
    let mut b = GenericArray::clone_from_slice(block);
    cipher.decrypt_block(&mut b);
    b.to_vec()
}

/// The AES-128 key used for a user key: its first 16 bytes.
pub open spec fn cipher_key(key: Seq<u8>) -> Seq<u8> {
    key.take(16)
}

/// Block-by-block encryption of `data` (whose length is a multiple of 16).
pub open spec fn ecb_encrypt(key: Seq<u8>, data: Seq<u8>) -> Seq<u8>
    decreases data.len(),
{
    if data.len() < 16 {
        Seq::empty()
    } else {
        ecb_encrypt(key, data.take(data.len() - 16)) + block_out(key, data.skip(data.len() - 16))
    }
}

/// Block-by-block decryption of `data` (whose length is a multiple of 16).
pub open spec fn ecb_decrypt(key: Seq<u8>, data: Seq<u8>) -> Seq<u8>
    decreases data.len(),
{
    if data.len() < 16 {
        Seq::empty()
    } else {
        ecb_decrypt(key, data.take(data.len() - 16)) + block_in(key, data.skip(data.len() - 16))
    }
}

/// The ciphertext and padding length that `encrypt` produces for `bytes`:
/// the padded bytes encrypted block by block under the first 16 bytes of `key`.
pub open spec fn spec_encrypt(key: Seq<u8>, bytes: Seq<u8>) -> (Seq<u8>, u8) {
    (ecb_encrypt(cipher_key(key), pad_seq(bytes)), padding_len(bytes.len()))
}

/// The bytes that `decrypt` produces: the ciphertext decrypted block by block,
/// without its last `padding` bytes.
pub open spec fn spec_decrypt(key: Seq<u8>, encrypted: Seq<u8>, padding: u8) -> Seq<u8> {
    if encrypted.len() == 0 {
        Seq::empty()
    } else {
        ecb_decrypt(cipher_key(key), encrypted).take(encrypted.len() - padding)
    }
}

/// A ciphertext that `decrypt` accepts: whole blocks, and a padding length of
/// at most one block when there is a block.
pub open spec fn decryptable(encrypted: Seq<u8>, padding: u8) -> bool {
    &&& encrypted.len() % 16 == 0
    &&& encrypted.len() > 0 ==> padding <= 16
}

proof fn lemma_ecb_encrypt_len(key: Seq<u8>, data: Seq<u8>)
    requires
        data.len() % 16 == 0,
    ensures
        ecb_encrypt(key, data).len() == data.len(),
    decreases data.len(),
{
    if data.len() >= 16 {
        lemma_ecb_encrypt_len(key, data.take(data.len() - 16));
    }
}

proof fn lemma_ecb_decrypt_len(key: Seq<u8>, data: Seq<u8>)
    requires
        data.len() % 16 == 0,
    ensures
        ecb_decrypt(key, data).len() == data.len(),
    decreases data.len(),
{
    if data.len() >= 16 {
        lemma_ecb_decrypt_len(key, data.take(data.len() - 16));
    }
}

/// The block of the ciphertext at `pos` is the encryption of the block of the plaintext at `pos`.
proof fn lemma_ecb_encrypt_block(key: Seq<u8>, data: Seq<u8>, pos: int)
    requires
        data.len() % 16 == 0,
        pos % 16 == 0,
        0 <= pos,
        pos + 16 <= data.len(),
    ensures
        ecb_encrypt(key, data).subrange(pos, pos + 16) == block_out(
            key,
            data.subrange(pos, pos + 16),
        ),
    decreases data.len(),
{
    let n = data.len() as int;
    let front = data.take(n - 16);
    lemma_ecb_encrypt_len(key, front);
    if pos + 16 == n {
        assert(data.skip(n - 16) =~= data.subrange(pos, pos + 16));
        assert(ecb_encrypt(key, data).subrange(pos, pos + 16) =~= block_out(
            key,
            data.skip(n - 16),
        ));
    } else {
        lemma_ecb_encrypt_block(key, front, pos);
        assert(front.subrange(pos, pos + 16) =~= data.subrange(pos, pos + 16));
        assert(ecb_encrypt(key, data).subrange(pos, pos + 16) =~= ecb_encrypt(
            key,
            front,
        ).subrange(pos, pos + 16));
    }
}

/// The first 16 bytes of `key`.
fn cipher_key_of(key: &[u8]) -> (k: &[u8])
    requires
        key@.len() >= 16,
    ensures
        k@ == cipher_key(key@),
{
    let k = slice_subrange(key, 0, 16);
    assert(k@ =~= cipher_key(key@));
    k
}

/// Pads `bytes` and encrypts them block by block with AES-128 under the first
/// 16 bytes of `key`; returns the ciphertext and the number of padding bytes.
pub fn encrypt(key: &[u8], bytes: &[u8]) -> (res: (Vec<u8>, u8))
    requires
        key@.len() >= 16,
    ensures
        (res.0@, res.1) == spec_encrypt(key@, bytes@),
        res.0@.len() == pad_seq(bytes@).len(),
{
    let k = cipher_key_of(key);
    let mut padded = slice_to_vec(bytes);
    let padding_bytes = pad(&mut padded);
    proof {
        lemma_pad_seq_len(bytes@);
    }
    let mut ciphertext: Vec<u8> = Vec::new();
    let mut pos: usize = 0;
    assert(padded@.take(0) =~= Seq::<u8>::empty());
    while pos < padded.len()
        invariant
            k@ == cipher_key(key@),
            k@.len() == 16,
            padded@ == pad_seq(bytes@),
            padded@.len() % 16 == 0,
            pos % 16 == 0,
            pos <= padded@.len(),
            ciphertext@ == ecb_encrypt(k@, padded@.take(pos as int)),
        decreases padded@.len() - pos,
    {
        let block = slice_subrange(padded.as_slice(), pos, pos + 16);
        let mut out = encrypt_block(k, block);
        assert(out@ =~= block_out(k@, block@));
        ciphertext.append(&mut out);
        let ghost next = padded@.take(pos + 16);
        assert(next.take(next.len() - 16) =~= padded@.take(pos as int));
        assert(next.skip(next.len() - 16) =~= block@);
        pos = pos + 16;
    }
    assert(padded@.take(pos as int) =~= padded@);
    proof {
        lemma_ecb_encrypt_len(k@, padded@);
    }
    (ciphertext, padding_bytes)
}

/// Decrypts every block of `encrypted_bytes`, keeping the padding.
fn decrypt_blocks(key: &[u8], encrypted_bytes: &[u8]) -> (full: Vec<u8>)
    requires
        key@.len() >= 16,
        encrypted_bytes@.len() % 16 == 0,
    ensures
        full@ == ecb_decrypt(cipher_key(key@), encrypted_bytes@),
        full@.len() == encrypted_bytes@.len(),
        forall|bytes: Seq<u8>|
            #[trigger] spec_encrypt(key@, bytes).0 == encrypted_bytes@ ==> full@ == pad_seq(
                bytes,
            ),
{
    let k = cipher_key_of(key);
    let n = encrypted_bytes.len();
    let mut full: Vec<u8> = Vec::new();
    let mut pos: usize = 0;
    assert(encrypted_bytes@.take(0) =~= Seq::<u8>::empty());
    while pos < n
        invariant
            k@ == cipher_key(key@),
            k@.len() == 16,
            n == encrypted_bytes@.len(),
            n % 16 == 0,
            pos % 16 == 0,
            pos <= n,
            full@ == ecb_decrypt(k@, encrypted_bytes@.take(pos as int)),
            forall|bytes: Seq<u8>|
                #[trigger] spec_encrypt(key@, bytes).0 == encrypted_bytes@ ==> full@ == pad_seq(
                    bytes,
                ).take(pos as int),
        decreases n - pos,
    {
        let block = slice_subrange(encrypted_bytes, pos, pos + 16);
        let mut out = decrypt_block(k, block);
        assert(out@ =~= block_in(k@, block@));
        let ghost dec = out@;
        full.append(&mut out);
        let ghost next = encrypted_bytes@.take(pos + 16);
        assert(next.take(next.len() - 16) =~= encrypted_bytes@.take(pos as int));
        assert(next.skip(next.len() - 16) =~= block@);
        assert forall|bytes: Seq<u8>|
            #[trigger] spec_encrypt(key@, bytes).0 == encrypted_bytes@ implies full@ == pad_seq(
                bytes,
            ).take(pos + 16) by {
            let padded = pad_seq(bytes);
            lemma_pad_seq_len(bytes);
            lemma_ecb_encrypt_len(k@, padded);
            lemma_ecb_encrypt_block(k@, padded, pos as int);
            let p = padded.subrange(pos as int, pos + 16);
            assert(block@ =~= encrypted_bytes@.subrange(pos as int, pos + 16));
            assert(p.len() == 16);
            assert(block_out(k@, p) == block@);
            assert(dec == p);
            assert(full@ =~= pad_seq(bytes).take(pos + 16));
        }
        pos = pos + 16;
    }
    assert(encrypted_bytes@.take(n as int) =~= encrypted_bytes@);
    proof {
        lemma_ecb_decrypt_len(k@, encrypted_bytes@);
        assert forall|bytes: Seq<u8>|
            #[trigger] spec_encrypt(key@, bytes).0 == encrypted_bytes@ implies full@ == pad_seq(
                bytes,
            ) by {
            lemma_pad_seq_len(bytes);
            lemma_ecb_encrypt_len(k@, pad_seq(bytes));
            assert(pad_seq(bytes).take(n as int) =~= pad_seq(bytes));
        }
    }
    full
}

/// Decrypts `encrypted_bytes` block by block with AES-128 under the first 16
/// bytes of `key` and drops the last `padding` bytes. The ciphertext that
/// `encrypt` produced for some bytes decrypts to those bytes padded, less the
/// last `padding` bytes; with the padding length that `encrypt` returned, to
/// exactly those bytes.
pub fn decrypt(key: &[u8], encrypted_bytes: &[u8], padding: u8) -> (decrypted_bytes: Vec<u8>)
    requires
        key@.len() >= 16,
        decryptable(encrypted_bytes@, padding),
    ensures
        decrypted_bytes@ == spec_decrypt(key@, encrypted_bytes@, padding),
        forall|bytes: Seq<u8>|
            #[trigger] spec_encrypt(key@, bytes).0 == encrypted_bytes@ ==> decrypted_bytes@
                == pad_seq(bytes).take(encrypted_bytes@.len() - padding),
        forall|bytes: Seq<u8>|
            #[trigger] spec_encrypt(key@, bytes) == (encrypted_bytes@, padding) ==> decrypted_bytes@
                == bytes,
{
    let n = encrypted_bytes.len();
    let mut full = decrypt_blocks(key, encrypted_bytes);
    let ghost whole = full@;
    if n > 0 {
        full.truncate(n - padding as usize);
    }
    proof {
        assert forall|bytes: Seq<u8>|
            #[trigger] spec_encrypt(key@, bytes).0 == encrypted_bytes@ implies full@ == pad_seq(
                bytes,
            ).take(n - padding) by {
            lemma_pad_seq_len(bytes);
            lemma_ecb_encrypt_len(cipher_key(key@), pad_seq(bytes));
        }
        assert forall|bytes: Seq<u8>|
            #[trigger] spec_encrypt(key@, bytes) == (encrypted_bytes@, padding) implies full@
                == bytes by {
            lemma_pad_seq_len(bytes);
            lemma_ecb_encrypt_len(cipher_key(key@), pad_seq(bytes));
            assert(spec_encrypt(key@, bytes).0 == encrypted_bytes@);
            assert(full@ =~= bytes);
        }
    }
    full
}

} // verus!

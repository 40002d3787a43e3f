//! The Apple challenge and the audio stream cipher.  The RSA and AES
//! primitives come from outside crates behind named results; the CBC mode,
//! the challenge assembly, and the padding conventions are verified here.

use vstd::prelude::*;
use aes::cipher::BlockDecrypt;
use aes::cipher::KeyInit;
use rsa::pkcs1::DecodeRsaPrivateKey;
use crate::b64::{b64_decode, b64_decode_spec, b64_encode, b64_nopad, b64_pad,
    lemma_b64_nopad_no_pads};

verus! {

/// A challenge that does not decode, a wrapped key that does not unwrap, or
/// key material of the wrong size.
#[derive(Clone, Copy, Debug, PartialEq, Eq, Structural)]
pub enum CipherError {
    BadChallenge,
    SignFailed,
    BadKey,
    BadIv,
}

/// What signing a message with the RAOP RSA key written as the given PEM
/// returns: PKCS#1 v1.5 raw signing is a function of the key and the
/// message alone, and fails exactly when the key does not parse or the
/// message is too long for it.
pub uninterp spec fn rsa_sign_raw_of(pem: Seq<char>, msg: Seq<u8>) -> Option<Seq<u8>>;

/// What RSA-OAEP-SHA1 decryption with the key written as the given PEM
/// returns: a function of the key and the ciphertext alone.
pub uninterp spec fn rsa_oaep_sha1_of(pem: Seq<char>, ciphertext: Seq<u8>) -> Option<Seq<u8>>;

/// What one AES-128 block decryption returns: a function of the key and the
/// block alone.
pub uninterp spec fn aes128_block_of(key: Seq<u8>, block: Seq<u8>) -> Seq<u8>;

/// Relies on `rsa::RsaPrivateKey::from_pkcs1_pem` and
/// `RsaPrivateKey::sign` with `Pkcs1v15Sign::new_unprefixed`: no digest is
/// applied, the raw message is padded and signed, deterministically.
#[verifier::external_body]
fn rsa_sign_raw(pem: &str, msg: &Vec<u8>) -> (r: Result<Vec<u8>, CipherError>)
    ensures
        r matches Ok(v) ==> rsa_sign_raw_of(pem@, msg@) == Some(v@),
        r is Err ==> rsa_sign_raw_of(pem@, msg@) is None,
{
    let key = match rsa::RsaPrivateKey::from_pkcs1_pem(pem) {
        Ok(k) => k,
        Err(_) => return Err(CipherError::SignFailed),
    };
    match key.sign(rsa::Pkcs1v15Sign::new_unprefixed(), msg.as_slice()) {
        Ok(v) => Ok(v),
        Err(_) => Err(CipherError::SignFailed),
    }
}

/// Relies on `rsa::RsaPrivateKey::from_pkcs1_pem` and
/// `RsaPrivateKey::decrypt` with `Oaep::new::<Sha1>`: OAEP decryption is
/// deterministic in the key and the ciphertext.
#[verifier::external_body]
fn rsa_oaep_decrypt(pem: &str, ciphertext: &Vec<u8>) -> (r: Result<Vec<u8>, CipherError>)
    ensures
        r matches Ok(v) ==> rsa_oaep_sha1_of(pem@, ciphertext@) == Some(v@),
        r is Err ==> rsa_oaep_sha1_of(pem@, ciphertext@) is None,
{
    let key = match rsa::RsaPrivateKey::from_pkcs1_pem(pem) {
        Ok(k) => k,
        Err(_) => return Err(CipherError::BadKey),
    };
    match key.decrypt(rsa::Oaep::new::<sha1::Sha1>(), ciphertext.as_slice()) {
        Ok(v) => Ok(v),
        Err(_) => Err(CipherError::BadKey),
    }
}

/// Relies on `aes::Aes128` with `cipher::BlockDecrypt::decrypt_block`: one
/// raw AES-128 block decryption.
#[verifier::external_body]
fn aes128_decrypt_block(key: &Vec<u8>, block: &Vec<u8>) -> (r: Vec<u8>)
    requires
        key@.len() == 16,
        block@.len() == 16,
    ensures
        r@ == aes128_block_of(key@, block@),
        r@.len() == 16,
{
    let cipher = aes::Aes128::new_from_slice(key.as_slice()).unwrap();
    let mut b = aes::cipher::generic_array::GenericArray::clone_from_slice(block.as_slice());
    cipher.decrypt_block(&mut b);
    b.to_vec()
}

/// Answers Apple-Challenge headers: the decoded challenge, the local
/// address bytes, and the MAC are signed with the RAOP key.
pub struct AppleChallenge {
    pub key_pem: String,
    pub ip_mac: Vec<u8>,
}

/// The whole challenge pipeline as a function: decode the challenge, append
/// the address and hardware bytes, sign, encode without padding.
pub open spec fn apple_response_of(pem: Seq<char>, ip_mac: Seq<u8>, challenge: Seq<char>) -> Option<
    Seq<char>,
> {
    match b64_decode_spec(challenge) {
        None => None,
        Some(ch) => match rsa_sign_raw_of(pem, ch + ip_mac) {
            None => None,
            Some(sig) => Some(b64_nopad(sig)),
        },
    }
}

impl AppleChallenge {
    /// Binds the responder to a key and to the 4- or 16-byte local address
    /// followed by the 6-byte MAC.
    pub fn new(key_pem: &str, ip_octets: &Vec<u8>, mac_address: &Vec<u8>) -> (r: Self)
        ensures
            r.key_pem@ == key_pem@,
            r.ip_mac@ == ip_octets@ + mac_address@,
    {
        let mut ip_mac: Vec<u8> = Vec::new();
        let mut i: usize = 0;
        while i < ip_octets.len()
            invariant
                i <= ip_octets@.len(),
                ip_mac@ == ip_octets@.subrange(0, i as int),
            decreases ip_octets@.len() - i,
        {
            ip_mac.push(ip_octets[i]);
            proof {
                assert(ip_mac@ =~= ip_octets@.subrange(0, i + 1));
            }
            i = i + 1;
        }
        proof {
            assert(ip_mac@ =~= ip_octets@);
        }
        let mut j: usize = 0;
        while j < mac_address.len()
            invariant
                j <= mac_address@.len(),
                ip_mac@ == ip_octets@ + mac_address@.subrange(0, j as int),
            decreases mac_address@.len() - j,
        {
            ip_mac.push(mac_address[j]);
            proof {
                assert(ip_mac@ =~= ip_octets@ + mac_address@.subrange(0, j + 1));
            }
            j = j + 1;
        }
        proof {
            assert(ip_mac@ =~= ip_octets@ + mac_address@);
        }
        AppleChallenge { key_pem: String::from_str(key_pem), ip_mac }
    }

    /// Computes the Apple-Response value for a base64 challenge: the
    /// signature over challenge plus address plus MAC, base64 encoded with
    /// the trailing padding stripped.
    pub fn response(&self, challenge: &str) -> (r: Result<String, CipherError>)
        ensures
            r matches Ok(s) ==> apple_response_of(self.key_pem@, self.ip_mac@, challenge@)
                == Some(s@),
            r is Err ==> apple_response_of(self.key_pem@, self.ip_mac@, challenge@) is None,
    {
        let decoded = match b64_decode(challenge) {
            Some(v) => v,
            None => {
                return Err(CipherError::BadChallenge);
            },
        };
        let mut msg = decoded;
        let ghost ch = msg@;
        let mut i: usize = 0;
        while i < self.ip_mac.len()
            invariant
                i <= self.ip_mac@.len(),
                msg@ == ch + self.ip_mac@.subrange(0, i as int),
            decreases self.ip_mac@.len() - i,
        {
            msg.push(self.ip_mac[i]);
            proof {
                assert(msg@ =~= ch + self.ip_mac@.subrange(0, i + 1));
            }
            i = i + 1;
        }
        proof {
            assert(msg@ =~= ch + self.ip_mac@);
        }
        let signature = match rsa_sign_raw(self.key_pem.as_str(), &msg) {
            Ok(v) => v,
            Err(e) => {
                return Err(e);
            },
        };
        let encoded = b64_encode(&signature);
        // strip the trailing '=' padding
        let n = encoded.as_str().unicode_len();
        let mut e: usize = n;
        while e > 0 && encoded.as_str().get_char(e - 1) == '='
            invariant
                e <= n,
                n == encoded@.len(),
                forall|k: int| e <= k < n ==> encoded@[k] == '=',
            decreases e,
        {
            e = e - 1;
        }
        let out = String::from_str(encoded.as_str().substring_char(0, e));
        proof {
            lemma_b64_nopad_no_pads(signature@);
            let body = b64_nopad(signature@);
            assert(encoded@ == b64_pad(signature@));
            assert(body.len() <= encoded@.len());
            assert(forall|k: int| 0 <= k < body.len() ==> encoded@[k] == body[k]);
            assert(forall|k: int| body.len() <= k < encoded@.len() ==> encoded@[k] == '=');
            assert(e == body.len()) by {
                if e > body.len() {
                    assert(encoded@[e - 1] == '=');
                }
                if e < body.len() {
                    assert(encoded@[e as int] == body[e as int]);
                    assert(body[e as int] != '=');
                }
            }
            assert(out@ =~= body);
        }
        Ok(out)
    }
}

/// Response values are deterministic: responders built from the same key
/// and the same address and MAC bytes answer every challenge identically.
pub proof fn lemma_apple_response_deterministic(
    x: AppleChallenge,
    y: AppleChallenge,
    challenge: Seq<char>,
)
    requires
        x.key_pem@ == y.key_pem@,
        x.ip_mac@ == y.ip_mac@,
    ensures
        apple_response_of(x.key_pem@, x.ip_mac@, challenge) == apple_response_of(
            y.key_pem@,
            y.ip_mac@,
            challenge,
        ),
{
}

/// The per-packet stream cipher description: an unwrapped AES-128 key and
/// the initialization vector.  Each packet is decrypted independently from
/// the same vector.
pub struct RsaAesCipher {
    pub key: Vec<u8>,
    pub iv: Vec<u8>,
}

/// One byte of CBC output.
pub open spec fn xor_byte(a: u8, b: u8) -> u8 {
    a ^ b
}

/// CBC decryption restarted at `iv`, with any trailing bytes shorter than a
/// block passed through unchanged.
pub open spec fn cbc_decrypt(key: Seq<u8>, iv: Seq<u8>, raw: Seq<u8>) -> Seq<u8>
    decreases raw.len(),
{
    if raw.len() < 16 {
        raw
    } else {
        let block = aes128_block_of(key, raw.take(16));
        Seq::new(16, |i: int| xor_byte(block[i], iv[i])) + cbc_decrypt(
            key,
            raw.take(16),
            raw.skip(16),
        )
    }
}

impl RsaAesCipher {
    pub open spec fn spec_wf(self) -> bool {
        self.key@.len() == 16 && self.iv@.len() == 16
    }

    /// Unwraps the RSA-encrypted AES key and takes the vector; both must be
    /// 16 bytes.
    pub fn new(key_pem: &str, rsaaeskey: &Vec<u8>, aesiv: &Vec<u8>) -> (r: Result<
        RsaAesCipher,
        CipherError,
    >)
        ensures
            r matches Ok(c) ==> rsa_oaep_sha1_of(key_pem@, rsaaeskey@) == Some(c.key@)
                && c.iv@ == aesiv@ && c.spec_wf(),
            r is Err ==> rsa_oaep_sha1_of(key_pem@, rsaaeskey@) is None || (match rsa_oaep_sha1_of(
                key_pem@,
                rsaaeskey@,
            ) {
                Some(k) => k.len() != 16,
                None => true,
            }) || aesiv@.len() != 16,
    {
        let key = match rsa_oaep_decrypt(key_pem, rsaaeskey) {
            Ok(v) => v,
            Err(e) => {
                return Err(e);
            },
        };
        if key.len() != 16 {
            return Err(CipherError::BadKey);
        }
        if aesiv.len() != 16 {
            return Err(CipherError::BadIv);
        }
        let mut iv: Vec<u8> = Vec::new();
        let mut i: usize = 0;
        while i < aesiv.len()
            invariant
                i <= aesiv@.len(),
                iv@ == aesiv@.subrange(0, i as int),
            decreases aesiv@.len() - i,
        {
            iv.push(aesiv[i]);
            proof {
                assert(iv@ =~= aesiv@.subrange(0, i + 1));
            }
            i = i + 1;
        }
        proof {
            assert(iv@ =~= aesiv@);
        }
        Ok(RsaAesCipher { key, iv })
    }

    /// Decrypts one packet: 16-byte blocks in CBC order from a fresh vector,
    /// trailing bytes shorter than a block unchanged.
    pub fn decrypt(&self, raw: &Vec<u8>) -> (r: Vec<u8>)
        requires
            self.spec_wf(),
        ensures
            r@ == cbc_decrypt(self.key@, self.iv@, raw@),
    {
        let mut out: Vec<u8> = Vec::new();
        let mut prev: Vec<u8> = Vec::new();
        let mut i: usize = 0;
        while i < self.iv.len()
            invariant
                i <= self.iv@.len(),
                prev@ == self.iv@.subrange(0, i as int),
            decreases self.iv@.len() - i,
        {
            prev.push(self.iv[i]);
            proof {
                assert(prev@ =~= self.iv@.subrange(0, i + 1));
            }
            i = i + 1;
        }
        proof {
            assert(prev@ =~= self.iv@);
        }
        let mut c: usize = 0;
        proof {
            assert(raw@.skip(0) =~= raw@);
        }
        while raw.len() - c >= 16
            invariant
                c <= raw@.len(),
                self.spec_wf(),
                prev@.len() == 16,
                cbc_decrypt(self.key@, self.iv@, raw@) == out@ + cbc_decrypt(
                    self.key@,
                    prev@,
                    raw@.skip(c as int),
                ),
            decreases raw@.len() - c,
        {
            let mut block: Vec<u8> = Vec::new();
            let mut k: usize = 0;
            while k < 16
                invariant
                    k <= 16,
                    c + 16 <= raw@.len(),
                    raw@.len() <= usize::MAX,
                    block@ == raw@.subrange(c as int, c + k),
                decreases 16 - k,
            {
                block.push(raw[c + k]);
                proof {
                    assert(block@ =~= raw@.subrange(c as int, c + k + 1));
                }
                k = k + 1;
            }
            let decrypted = aes128_decrypt_block(&self.key, &block);
            let ghost out0 = out@;
            let mut k2: usize = 0;
            while k2 < 16
                invariant
                    k2 <= 16,
                    decrypted@.len() == 16,
                    prev@.len() == 16,
                    decrypted@ == aes128_block_of(self.key@, block@),
                    out@ == out0 + Seq::new(k2 as nat, |i: int| xor_byte(decrypted@[i], prev@[i])),
                decreases 16 - k2,
            {
                out.push(decrypted[k2] ^ prev[k2]);
                proof {
                    assert(out@ =~= out0 + Seq::new(
                        (k2 + 1) as nat,
                        |i: int| xor_byte(decrypted@[i], prev@[i]),
                    ));
                }
                k2 = k2 + 1;
            }
            proof {
                let rest = raw@.skip(c as int);
                assert(rest.take(16) =~= block@);
                assert(rest.skip(16) =~= raw@.skip(c + 16));
                assert(cbc_decrypt(self.key@, prev@, rest) == Seq::new(
                    16,
                    |i: int| xor_byte(aes128_block_of(self.key@, block@)[i], prev@[i]),
                ) + cbc_decrypt(self.key@, block@, raw@.skip(c + 16)));
                assert(out@ =~= out0 + Seq::new(
                    16,
                    |i: int| xor_byte(aes128_block_of(self.key@, block@)[i], prev@[i]),
                ));
            }
            prev = block;
            c = c + 16;
        }
        let mut t: usize = c;
        proof {
            assert(cbc_decrypt(self.key@, prev@, raw@.skip(c as int)) == raw@.skip(c as int));
            assert(raw@.skip(t as int) =~= raw@.subrange(t as int, raw@.len() as int));
        }
        while t < raw.len()
            invariant
                t <= raw@.len(),
                cbc_decrypt(self.key@, self.iv@, raw@) == out@ + raw@.subrange(
                    t as int,
                    raw@.len() as int,
                ),
            decreases raw@.len() - t,
        {
            out.push(raw[t]);
            proof {
                assert(out@.drop_last() + raw@.subrange(t as int, raw@.len() as int) =~= out@
                    + raw@.subrange(t + 1, raw@.len() as int));
            }
            t = t + 1;
        }
        proof {
            assert(raw@.subrange(t as int, raw@.len() as int) =~= Seq::<u8>::empty());
            assert(cbc_decrypt(self.key@, self.iv@, raw@) =~= out@);
        }
        out
    }
}

/// Per-packet reset: each packet's plaintext is a function of the cipher
/// and that packet alone, so decrypting two packets in either order gives
/// each of them the same bytes.
pub proof fn lemma_decrypt_order_independent(c: RsaAesCipher, a: Seq<u8>, b: Seq<u8>)
    ensures
        seq![
            cbc_decrypt(c.key@, c.iv@, a),
            cbc_decrypt(c.key@, c.iv@, b),
        ] == seq![
            cbc_decrypt(c.key@, c.iv@, b),
            cbc_decrypt(c.key@, c.iv@, a),
        ].reverse(),
{
    let fwd = seq![cbc_decrypt(c.key@, c.iv@, a), cbc_decrypt(c.key@, c.iv@, b)];
    let rev = seq![cbc_decrypt(c.key@, c.iv@, b), cbc_decrypt(c.key@, c.iv@, a)];
    assert(fwd =~= rev.reverse());
}

} // verus!

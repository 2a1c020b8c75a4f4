//! Signed delegation requests: the message that a signer signs and the
//! check of a recoverable ECDSA signature over it.

use crate::ledger::same_account;
use crate::AccountId;
use vstd::prelude::*;

verus! {

/// The 8 little-endian bytes of `n`.
pub open spec fn le_bytes(n: u64) -> Seq<u8> {
    seq![
        (n % 0x100) as u8,
        ((n / 0x100) % 0x100) as u8,
        ((n / 0x1_0000) % 0x100) as u8,
        ((n / 0x100_0000) % 0x100) as u8,
        ((n / 0x1_0000_0000) % 0x100) as u8,
        ((n / 0x100_0000_0000) % 0x100) as u8,
        ((n / 0x1_0000_0000_0000) % 0x100) as u8,
        ((n / 0x100_0000_0000_0000) % 0x100) as u8,
    ]
}

/// The bytes signed to delegate to `delegatee`: its 32 bytes, then the nonce
/// and the expiry, each as 8 little-endian bytes.
pub open spec fn delegation_message_of(delegatee: AccountId, nonce: u64, expiry: u64) -> Seq<u8> {
    delegatee@ + le_bytes(nonce) + le_bytes(expiry)
}

proof fn lemma_le_bytes_injective(n: u64, m: u64)
    requires
        le_bytes(n) == le_bytes(m),
    ensures
        n == m,
{
    let a = le_bytes(n);
    let b = le_bytes(m);
    assert(a[0] == b[0] && a[1] == b[1] && a[2] == b[2] && a[3] == b[3]);
    assert(a[4] == b[4] && a[5] == b[5] && a[6] == b[6] && a[7] == b[7]);
    assert(n % 0x100 == m % 0x100);
    assert((n / 0x100) % 0x100 == (m / 0x100) % 0x100);
    assert((n / 0x1_0000) % 0x100 == (m / 0x1_0000) % 0x100);
    assert((n / 0x100_0000) % 0x100 == (m / 0x100_0000) % 0x100);
    assert((n / 0x1_0000_0000) % 0x100 == (m / 0x1_0000_0000) % 0x100);
    assert((n / 0x100_0000_0000) % 0x100 == (m / 0x100_0000_0000) % 0x100);
    assert((n / 0x1_0000_0000_0000) % 0x100 == (m / 0x1_0000_0000_0000) % 0x100);
    assert((n / 0x100_0000_0000_0000) % 0x100 == (m / 0x100_0000_0000_0000) % 0x100);
    assert(n == m) by (bit_vector)
        requires
            n % 0x100 == m % 0x100,
            (n / 0x100) % 0x100 == (m / 0x100) % 0x100,
            (n / 0x1_0000) % 0x100 == (m / 0x1_0000) % 0x100,
            (n / 0x100_0000) % 0x100 == (m / 0x100_0000) % 0x100,
            (n / 0x1_0000_0000) % 0x100 == (m / 0x1_0000_0000) % 0x100,
            (n / 0x100_0000_0000) % 0x100 == (m / 0x100_0000_0000) % 0x100,
            (n / 0x1_0000_0000_0000) % 0x100 == (m / 0x1_0000_0000_0000) % 0x100,
            (n / 0x100_0000_0000_0000) % 0x100 == (m / 0x100_0000_0000_0000) % 0x100,
    ;
}

/// The signed message binds the whole request: two requests that differ in
/// delegatee, nonce or expiry have different messages, so a signature over
/// one is a signature over a different message than the other's.
pub proof fn lemma_message_binds_request(d1: AccountId, n1: u64, e1: u64, d2: AccountId, n2: u64, e2: u64)
    requires
        d1 != d2 || n1 != n2 || e1 != e2,
    ensures
        delegation_message_of(d1, n1, e1) != delegation_message_of(d2, n2, e2),
{
    broadcast use vstd::array::group_array_axioms;

    let m1 = delegation_message_of(d1, n1, e1);
    let m2 = delegation_message_of(d2, n2, e2);
    if m1 == m2 {
        assert(m1.subrange(0, 32) =~= d1@);
        assert(m2.subrange(0, 32) =~= d2@);
        assert(m1.subrange(32, 40) =~= le_bytes(n1));
        assert(m2.subrange(32, 40) =~= le_bytes(n2));
        assert(m1.subrange(40, 48) =~= le_bytes(e1));
        assert(m2.subrange(40, 48) =~= le_bytes(e2));
        lemma_le_bytes_injective(n1, n2);
        lemma_le_bytes_injective(e1, e2);
        assert(d1 =~= d2) by {
            assert forall|i: int| 0 <= i < 32 implies d1[i] == d2[i] by {
                assert(d1@[i] == m1[i]);
            }
        }
    }
}

/// Relies on parity-scale-codec's `Encode` for a tuple, which writes its
/// fields in order: a byte array as its bytes, a `u64` as 8 little-endian
/// bytes.
#[verifier::external_body]
fn encode_delegation(delegatee: &AccountId, nonce: u64, expiry: u64) -> (r: Vec<u8>)
    ensures
        r@ == delegation_message_of(*delegatee, nonce, expiry),
{
    parity_scale_codec::Encode::encode(&(delegatee, &nonce, &expiry))
}

/// The message that a signer signs to delegate to `delegatee` with `nonce`,
/// valid up to `expiry`.
pub fn delegation_message(delegatee: &AccountId, nonce: u64, expiry: u64) -> (r: Vec<u8>)
    ensures
        r@ == delegation_message_of(*delegatee, nonce, expiry),
{
    encode_delegation(delegatee, nonce, expiry)
}

/// The 32-byte BLAKE2b digest of `input`.
pub uninterp spec fn blake2b_256_of(input: Seq<u8>) -> Seq<u8>;

/// Relies on ink_ir::blake2b_256, which writes the BLAKE2b digest of
/// `input` with a 32-byte output into its buffer.
#[verifier::external_body]
fn blake2b_256(input: &[u8]) -> (r: [u8; 32])
    ensures
        r@ == blake2b_256_of(input@),
{
    let mut output = [0u8; 32];
    ink_ir::blake2b_256(input, &mut output);
    output
}

/// The compressed public key recovered from a 65-byte recoverable ECDSA
/// signature over a 32-byte message hash, or none when recovery fails.
pub uninterp spec fn ecdsa_recover_of(signature: Seq<u8>, message_hash: Seq<u8>) -> Option<Seq<u8>>;

/// The order of the secp256k1 group, big-endian.
pub open spec fn curve_order() -> Seq<u8> {
    seq![
        0xff, 0xff, 0xff, 0xff, 0xff, 0xff, 0xff, 0xff, 0xff, 0xff, 0xff, 0xff, 0xff, 0xff, 0xff, 0xfe,
        0xba, 0xae, 0xdc, 0xe6, 0xaf, 0x48, 0xa0, 0x3b, 0xbf, 0xd2, 0x5e, 0x8c, 0xd0, 0x36, 0x41, 0x41,
    ]
}

/// `a` comes before `b` in lexicographic order, both of the same length.
pub open spec fn lex_below(a: Seq<u8>, b: Seq<u8>) -> bool {
    exists|k: int| 0 <= k < a.len() && (forall|j: int| 0 <= j < k ==> a[j] == b[j]) && a[k] < b[k]
}

/// A 65-byte signature in the form that recovery accepts: a recovery byte of
/// 0 to 3 (or 27 to 30), and both 32-byte scalars below the group order.
pub open spec fn recoverable_form(sig: Seq<u8>) -> bool {
    &&& sig.len() == 65
    &&& (sig[64] <= 3 || 27 <= sig[64] <= 30)
    &&& lex_below(sig.subrange(0, 32), curve_order())
    &&& lex_below(sig.subrange(32, 64), curve_order())
}

/// Relies on ink::env::ecdsa_recover, which recovers the compressed public
/// key from a signature over a message hash, or reports that it could not.
/// It panics on a recovery byte or a scalar out of range, which `requires`
/// leaves out.
#[verifier::external_body]
fn ecdsa_recover(signature: &[u8; 65], message_hash: &[u8; 32]) -> (r: Option<[u8; 33]>)
    requires
        recoverable_form(signature@),
    ensures
        match r {
            Some(key) => ecdsa_recover_of(signature@, message_hash@) == Some(key@),
            None => ecdsa_recover_of(signature@, message_hash@) == None::<Seq<u8>>,
        },
{
    let mut output = [0u8; 33];
    match ink::env::ecdsa_recover(signature, message_hash, &mut output) {
        Ok(()) => Some(output),
        Err(_) => None,
    }
}

/// A signature of a delegation request.
#[derive(Clone, Copy, Debug, PartialEq, Eq)]
pub enum Signature {
    /// A recoverable secp256k1 ECDSA signature: 64 bytes of scalars and a
    /// recovery byte.
    ECDSA([u8; 65]),
}

/// `signature` is accepted as `signer`'s over `message`: it has the
/// recoverable form, and the key that it recovers over the BLAKE2b-256 digest
/// of the message hashes (BLAKE2b-256 again) to the signer's identifier.
pub open spec fn signature_accepts(signature: Signature, message: Seq<u8>, signer: AccountId) -> bool {
    match signature {
        Signature::ECDSA(sig) => recoverable_form(sig@) && match ecdsa_recover_of(sig@, blake2b_256_of(message)) {
            Some(key) => blake2b_256_of(key) == signer@,
            None => false,
        },
    }
}

/// Whether the 32 bytes of `sig` from `start` on, read big-endian, lie below
/// the group order.
fn below_order(sig: &[u8; 65], start: usize) -> (r: bool)
    requires
        start + 32 <= 65,
    ensures
        r == lex_below(sig@.subrange(start as int, start + 32), curve_order()),
{
    let order: [u8; 32] = [
        0xff, 0xff, 0xff, 0xff, 0xff, 0xff, 0xff, 0xff, 0xff, 0xff, 0xff, 0xff, 0xff, 0xff, 0xff, 0xfe,
        0xba, 0xae, 0xdc, 0xe6, 0xaf, 0x48, 0xa0, 0x3b, 0xbf, 0xd2, 0x5e, 0x8c, 0xd0, 0x36, 0x41, 0x41,
    ];
    assert(order@ =~= curve_order());
    let ghost a = sig@.subrange(start as int, start + 32);
    let ghost b = curve_order();
    let mut i: usize = 0;
    while i < 32 && sig[start + i] == order[i]
        invariant
            0 <= i <= 32,
            start + 32 <= 65,
            a == sig@.subrange(start as int, start + 32),
            b == curve_order(),
            order@ == b,
            forall|j: int| 0 <= j < i ==> a[j] == b[j],
        decreases 32 - i,
    {
        i = i + 1;
    }
    if i == 32 {
        assert(!lex_below(a, b)) by {
            if lex_below(a, b) {
                let k = choose|k: int| 0 <= k < a.len() && (forall|j: int| 0 <= j < k ==> a[j] == b[j]) && a[k] < b[k];
                assert(a[k] == b[k]);
            }
        }
        false
    } else {
        assert(a[i as int] == sig[start + i]);
        if sig[start + i] < order[i] {
            assert(lex_below(a, b));
            true
        } else {
            assert(!lex_below(a, b)) by {
                if lex_below(a, b) {
                    let k = choose|k: int| 0 <= k < a.len() && (forall|j: int| 0 <= j < k ==> a[j] == b[j]) && a[k] < b[k];
                    if k > i {
                        assert(a[i as int] == b[i as int]);
                    }
                }
            }
            false
        }
    }
}

impl Signature {
    /// Whether this signature is accepted as `pub_key`'s over `message`.
    pub fn verify(&self, message: &[u8], pub_key: &AccountId) -> (r: bool)
        ensures
            r == signature_accepts(*self, message@, *pub_key),
    {
        match self {
            Signature::ECDSA(sig) => {
                let v = sig[64];
                if !(v <= 3 || (27 <= v && v <= 30)) || !below_order(sig, 0) || !below_order(sig, 32) {
                    return false;
                }
                let message_hash = blake2b_256(message);
                match ecdsa_recover(sig, &message_hash) {
                    Some(key) => {
                        let id = blake2b_256(key.as_slice());
                        same_account(&id, pub_key)
                    },
                    None => false,
                }
            },
        }
    }
}

} // verus!

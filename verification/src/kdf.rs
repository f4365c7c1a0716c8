use vstd::prelude::*;

use crate::crypto::argon2_hash;
use crate::crypto::argon2_raw_hash;

verus! {

/// Failure of the key-derivation unit. Fatal: it does not depend on the
/// password being right or wrong.
#[derive(Clone, Copy, PartialEq, Eq, Structural, Debug)]
pub enum DerivationError {
    /// The password-hashing primitive rejected its input or failed
    /// internally.
    Primitive,
    /// The primitive produced fewer than 32 bytes of output: an internal
    /// invariant violation.
    ShortOutput,
}

/// The 32-byte symmetric key for a password and a salt: the first 32 bytes
/// of the raw hash output.
pub open spec fn key_of(password: Seq<char>, salt: Seq<u8>) -> Seq<u8> {
    argon2_raw_hash(password, salt).take(32)
}

/// Slice the 32-byte key out of the primitive's raw output, rejecting
/// output that is too short.
pub fn key_material(hash: Vec<u8>) -> (r: Result<Vec<u8>, DerivationError>)
    ensures
        r is Ok <==> hash@.len() >= 32,
        r matches Ok(k) ==> k@ == hash@.take(32) && k@.len() == 32,
        r matches Err(e) ==> e == DerivationError::ShortOutput && hash@.len() < 32,
{
    if hash.len() < 32 {
        return Err(DerivationError::ShortOutput);
    }
    let mut k: Vec<u8> = Vec::new();
    let mut i: usize = 0;
    while i < 32
        invariant
            i <= 32,
            hash@.len() >= 32,
            k@ == hash@.take(i as int),
        decreases 32 - i,
    {
        k.push(hash[i]);
        proof {
            assert(hash@.take(i + 1) =~= hash@.take(i as int).push(hash@[i as int]));
        }
        i = i + 1;
    }
    Ok(k)
}

/// Derive the 32-byte key for (password, salt): deterministic and
/// side-effect-free, by way of the memory-hard password-hashing primitive.
/// A salt below the primitive's 8-byte minimum is always rejected.
pub fn derive_key(password: &str, salt: &[u8]) -> (r: Result<Vec<u8>, DerivationError>)
    ensures
        r matches Ok(k) ==> k@ == key_of(password@, salt@) && k@.len() == 32 && argon2_raw_hash(
            password@,
            salt@,
        ).len() >= 32,
        r matches Err(e) ==> e == DerivationError::Primitive || (e == DerivationError::ShortOutput
            && argon2_raw_hash(password@, salt@).len() < 32),
        salt@.len() < 8 ==> r == Err::<Vec<u8>, DerivationError>(DerivationError::Primitive),
{
    match argon2_hash(password, salt) {
        Some(h) => key_material(h),
        None => Err(DerivationError::Primitive),
    }
}

} // verus!

use vstd::prelude::*;

use crate::codec::{lemma_parse_render, parse, parse_text, render, render_entries};
use crate::crypto::{
    aes_gcm_decrypt, aes_gcm_encrypt, aes_gcm_seal, argon2_raw_hash, base64_decode, base64_encode,
    base64_of, generate_nonce_bytes, generate_salt_bytes,
};
use crate::document::{entries_wf, key_valid, map_of, Document};
use crate::kdf::{derive_key, key_of};
use vstd::utf8::encode_utf8;

verus! {

/// The one error unlocking reports. By design it does not say which check
/// failed: a wrong password and corrupted data are indistinguishable to the
/// caller.
#[derive(Clone, Copy, PartialEq, Eq, Structural, Debug)]
pub struct UnlockError;

/// Failure while sealing or persisting a document.
#[derive(Clone, Copy, PartialEq, Eq, Structural, Debug)]
pub enum PersistError {
    /// Key derivation failed.
    Derivation,
    /// Sealing the serialized document failed.
    Encryption,
    /// Text-encoding the sealed container failed.
    Serialization,
    /// Writing a file failed. The engine never touches files; the caller
    /// that owns them reports this.
    Write,
}

/// The document a plaintext body stands for: the body must parse, and every
/// parsed key must be one a document mutation accepts.
pub open spec fn doc_map_of(body: Seq<char>) -> Option<Map<Seq<char>, Seq<char>>> {
    match parse(body) {
        Some(es) => if forall|i: int| 0 <= i < es.len() ==> key_valid(#[trigger] es[i].0) {
            Some(map_of(es))
        } else {
            None
        },
        None => None,
    }
}

/// Container text is an authentic sealing of document `d` under `key` when,
/// for some 12-byte nonce and some plaintext body standing for `d`, it is
/// the text encoding of the nonce followed by the sealed body.
pub open spec fn sealed_with_key(
    c: Seq<char>,
    key: Seq<u8>,
    d: Map<Seq<char>, Seq<char>>,
) -> bool {
    exists|nonce: Seq<u8>, body: Seq<char>|
        nonce.len() == 12 && doc_map_of(body) == Some(d) && c == #[trigger] base64_of(
            nonce + aes_gcm_seal(key, nonce, body),
        )
}

/// Serialize `doc` and seal it under the given 32-byte key with a fresh
/// random nonce, yielding the container text: the encoding of the 12-byte
/// nonce, the encrypted serialized document, and the 16-byte tag.
pub fn seal_with_key(doc: &Document, key: &Vec<u8>) -> (r: Result<String, PersistError>)
    requires
        doc.wf(),
        key@.len() == 32,
    ensures
        r matches Ok(c) ==> sealed_with_key(c@, key@, doc@),
        r matches Ok(c) ==> exists|blob: Seq<u8>|
            c@ == #[trigger] base64_of(blob) && blob.len() == 12 + encode_utf8(
                render(doc.entry_seq()),
            ).len() + 16,
        r matches Err(e) ==> e == PersistError::Encryption || e == PersistError::Serialization,
{
    let body = render_entries(doc.get_all());
    let nonce = match generate_nonce_bytes() {
        Some(n) => n,
        None => {
            return Err(PersistError::Encryption);
        },
    };
    let ghost nonce_view = nonce@;
    let ct = match aes_gcm_encrypt(key.as_slice(), nonce.as_slice(), body.as_str()) {
        Some(c) => c,
        None => {
            return Err(PersistError::Encryption);
        },
    };
    let ghost ct_view = ct@;
    let mut blob = nonce;
    let mut tail = ct;
    blob.append(&mut tail);
    match base64_encode(blob.as_slice()) {
        Some(text) => {
            proof {
                let es = doc.entry_seq();
                lemma_parse_render(es);
                assert(doc_map_of(render(es)) == Some(doc@));
                assert(text@ == base64_of(nonce_view + aes_gcm_seal(key@, nonce_view, body@)));
                assert(sealed_with_key(text@, key@, doc@));
                assert(ct_view.len() == encode_utf8(render(es)).len() + 16);
                assert(text@ == base64_of(blob@));
                assert(blob@.len() == 12 + encode_utf8(render(es)).len() + 16);
            }
            Ok(text)
        },
        None => Err(PersistError::Serialization),
    }
}

/// Open container text with the given 32-byte key. Every container that is
/// an authentic sealing of some document under this key opens to exactly
/// that document; and it fails closed: a document comes back only from a
/// container that is an authentic sealing of it, never from a decode that
/// happened to produce garbage.
pub fn open_with_key(container: &str, key: &Vec<u8>) -> (r: Result<Document, UnlockError>)
    requires
        key@.len() == 32,
    ensures
        forall|d: Map<Seq<char>, Seq<char>>|
            sealed_with_key(container@, key@, d) ==> (r matches Ok(doc) && doc@ == d),
        r matches Ok(doc) ==> doc.wf() && sealed_with_key(container@, key@, doc@),
{
    let blob = match base64_decode(container) {
        Some(b) => b,
        None => {
            proof {
                assert forall|d: Map<Seq<char>, Seq<char>>|
                    !sealed_with_key(container@, key@, d) by {
                    if sealed_with_key(container@, key@, d) {
                        let (nonce, body) = choose|nonce: Seq<u8>, body: Seq<char>|
                            nonce.len() == 12 && doc_map_of(body) == Some(d) && container@
                                == #[trigger] base64_of(nonce + aes_gcm_seal(key@, nonce, body));
                        assert(container@ == base64_of(nonce + aes_gcm_seal(key@, nonce, body)));
                    }
                }
            }
            return Err(UnlockError);
        },
    };
    if blob.len() < 12 {
        proof {
            assert forall|d: Map<Seq<char>, Seq<char>>|
                !sealed_with_key(container@, key@, d) by {
                if sealed_with_key(container@, key@, d) {
                    let (nonce, body) = choose|nonce: Seq<u8>, body: Seq<char>|
                        nonce.len() == 12 && doc_map_of(body) == Some(d) && container@
                            == #[trigger] base64_of(nonce + aes_gcm_seal(key@, nonce, body));
                    assert(blob@ == nonce + aes_gcm_seal(key@, nonce, body));
                    assert(blob@.len() >= 12);
                }
            }
        }
        return Err(UnlockError);
    }
    let ghost blob0 = blob@;
    let mut nonce = blob;
    let ct = nonce.split_off(12);
    let ghost whole = nonce@ + ct@;
    proof {
        assert(whole =~= blob0);
        assert(whole.subrange(0, 12) =~= nonce@);
        assert(whole.subrange(12, whole.len() as int) =~= ct@);
    }
    let pt = match aes_gcm_decrypt(key.as_slice(), nonce.as_slice(), ct.as_slice()) {
        Some(p) => p,
        None => {
            proof {
                assert forall|d: Map<Seq<char>, Seq<char>>|
                    !sealed_with_key(container@, key@, d) by {
                    if sealed_with_key(container@, key@, d) {
                        let (n0, body) = choose|n0: Seq<u8>, body: Seq<char>|
                            n0.len() == 12 && doc_map_of(body) == Some(d) && container@
                                == #[trigger] base64_of(n0 + aes_gcm_seal(key@, n0, body));
                        assert(whole == n0 + aes_gcm_seal(key@, n0, body));
                        assert(nonce@ =~= n0);
                        assert(ct@ =~= aes_gcm_seal(key@, n0, body));
                        assert(ct@ == aes_gcm_seal(key@, nonce@, body));
                    }
                }
            }
            return Err(UnlockError);
        },
    };
    let pairs = match parse_text(pt.as_str()) {
        Some(es) => es,
        None => {
            proof {
                assert forall|d: Map<Seq<char>, Seq<char>>|
                    !sealed_with_key(container@, key@, d) by {
                    if sealed_with_key(container@, key@, d) {
                        let (n0, body) = choose|n0: Seq<u8>, body: Seq<char>|
                            n0.len() == 12 && doc_map_of(body) == Some(d) && container@
                                == #[trigger] base64_of(n0 + aes_gcm_seal(key@, n0, body));
                        assert(whole == n0 + aes_gcm_seal(key@, n0, body));
                        assert(nonce@ =~= n0);
                        assert(ct@ =~= aes_gcm_seal(key@, n0, body));
                        assert(ct@ == aes_gcm_seal(key@, nonce@, body));
                        assert(pt@ == body);
                    }
                }
            }
            return Err(UnlockError);
        },
    };
    match Document::from_pairs(pairs) {
        Some(doc) => {
            proof {
                assert(container@ == base64_of(nonce@ + aes_gcm_seal(key@, nonce@, pt@))) by {
                    assert(ct@ == aes_gcm_seal(key@, nonce@, pt@));
                    assert(container@ == base64_of(blob0));
                }
                assert(doc_map_of(pt@) == Some(doc@));
                assert(sealed_with_key(container@, key@, doc@));
                assert forall|d: Map<Seq<char>, Seq<char>>|
                    sealed_with_key(container@, key@, d) implies doc@ == d by {
                    let (n0, body) = choose|n0: Seq<u8>, body: Seq<char>|
                        n0.len() == 12 && doc_map_of(body) == Some(d) && container@
                            == #[trigger] base64_of(n0 + aes_gcm_seal(key@, n0, body));
                    assert(whole == n0 + aes_gcm_seal(key@, n0, body));
                    assert(nonce@ =~= n0);
                    assert(ct@ =~= aes_gcm_seal(key@, n0, body));
                    assert(ct@ == aes_gcm_seal(key@, nonce@, body));
                    assert(pt@ == body);
                    assert(parse(body) == Some(pairs.deep_view()));
                    assert(map_of(pairs.deep_view()) == d);
                }
            }
            Ok(doc)
        },
        None => {
            proof {
                assert forall|d: Map<Seq<char>, Seq<char>>|
                    !sealed_with_key(container@, key@, d) by {
                    if sealed_with_key(container@, key@, d) {
                        let (n0, body) = choose|n0: Seq<u8>, body: Seq<char>|
                            n0.len() == 12 && doc_map_of(body) == Some(d) && container@
                                == #[trigger] base64_of(n0 + aes_gcm_seal(key@, n0, body));
                        assert(whole == n0 + aes_gcm_seal(key@, n0, body));
                        assert(nonce@ =~= n0);
                        assert(ct@ =~= aes_gcm_seal(key@, n0, body));
                        assert(ct@ == aes_gcm_seal(key@, nonce@, body));
                        assert(pt@ == body);
                        assert(parse(body) == Some(pairs.deep_view()));
                    }
                }
            }
            Err(UnlockError)
        },
    }
}

/// Serialize, seal and encode `doc` under the key derived from the password
/// and the salt.
pub fn save(doc: &Document, password: &str, salt: &[u8]) -> (r: Result<String, PersistError>)
    requires
        doc.wf(),
    ensures
        r matches Ok(c) ==> sealed_with_key(c@, key_of(password@, salt@), doc@) && argon2_raw_hash(
            password@,
            salt@,
        ).len() >= 32,
        r matches Ok(c) ==> exists|blob: Seq<u8>|
            c@ == #[trigger] base64_of(blob) && blob.len() == 12 + encode_utf8(
                render(doc.entry_seq()),
            ).len() + 16,
        r matches Err(e) ==> e != PersistError::Write,
{
    let key = match derive_key(password, salt) {
        Ok(k) => k,
        Err(_) => {
            return Err(PersistError::Derivation);
        },
    };
    seal_with_key(doc, &key)
}

/// Decode, authenticate and parse container text with the key derived from
/// the password and the salt. It fails closed: a document comes back only
/// from a container that is an authentic sealing of it under the password's
/// key — never a corrupted-but-decrypted one.
pub fn unlock(container: &str, password: &str, salt: &[u8]) -> (r: Result<Document, UnlockError>)
    ensures
        r matches Ok(doc) ==> doc.wf() && sealed_with_key(
            container@,
            key_of(password@, salt@),
            doc@,
        ) && (forall|d: Map<Seq<char>, Seq<char>>|
            sealed_with_key(container@, key_of(password@, salt@), d) ==> doc@ == d),
{
    let key = match derive_key(password, salt) {
        Ok(k) => k,
        Err(_) => {
            return Err(UnlockError);
        },
    };
    open_with_key(container, &key)
}

/// Unlock an existing container or, when the store has none yet, establish
/// the store: the document is then empty, and the returned container text
/// seals it under the supplied password for the caller to persist. The
/// engine holds no state of its own: it reads its arguments and returns
/// fresh values, so a failure leaves everything persisted as it was.
pub fn initialize_or_load(container: Option<&String>, password: &str, salt: &[u8]) -> (r: Result<
    (Document, Option<String>),
    UnlockError,
>)
    ensures
        r matches Ok(p) ==> p.0.wf() && match container {
            Some(c) => p.1 is None && sealed_with_key(c@, key_of(password@, salt@), p.0@) && (
            forall|d: Map<Seq<char>, Seq<char>>|
                sealed_with_key(c@, key_of(password@, salt@), d) ==> p.0@ == d),
            None => p.0@ == Map::<Seq<char>, Seq<char>>::empty() && (p.1 matches Some(c)
                && sealed_with_key(
                c@,
                key_of(password@, salt@),
                Map::<Seq<char>, Seq<char>>::empty(),
            )),
        },
{
    match container {
        Some(c) => match unlock(c.as_str(), password, salt) {
            Ok(doc) => Ok((doc, None)),
            Err(e) => Err(e),
        },
        None => {
            let doc = Document::new();
            match save(&doc, password, salt) {
                Ok(text) => Ok((doc, Some(text))),
                Err(_) => Err(UnlockError),
            }
        },
    }
}

/// A fresh random 16-byte salt for a new store.
pub fn generate_salt() -> (r: Option<Vec<u8>>)
    ensures
        r matches Some(v) ==> v@.len() == 16,
{
    generate_salt_bytes()
}

/// The sealing round trip: container text assembled from any 12-byte nonce
/// and the rendering of a well-formed entry sequence is an authentic
/// sealing of exactly the document those entries describe — so, by
/// `open_with_key`'s contract, opening what `seal_with_key` produced under
/// the same key yields the document back.
pub proof fn lemma_seal_round_trip(key: Seq<u8>, nonce: Seq<u8>, es: Seq<(Seq<char>, Seq<char>)>)
    requires
        nonce.len() == 12,
        entries_wf(es),
    ensures
        sealed_with_key(base64_of(nonce + aes_gcm_seal(key, nonce, render(es))), key, map_of(es)),
{
    lemma_parse_render(es);
    assert(doc_map_of(render(es)) == Some(map_of(es)));
    assert(base64_of(nonce + aes_gcm_seal(key, nonce, render(es))) == base64_of(
        nonce + aes_gcm_seal(key, nonce, render(es)),
    ));
}

} // verus!

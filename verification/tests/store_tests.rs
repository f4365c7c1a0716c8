use base64::Engine;
use secret_store::{generate_salt, initialize_or_load, save, unlock, Document};

/// The persisted state of one store, as a caller owning the two files would
/// hold it: the salt file and the container file.
struct Disk {
    salt: Option<Vec<u8>>,
    container: Option<String>,
}

impl Disk {
    fn new() -> Disk {
        Disk { salt: None, container: None }
    }

    /// The salt is created once and never regenerated.
    fn salt(&mut self) -> Vec<u8> {
        if self.salt.is_none() {
            self.salt = Some(generate_salt().expect("random salt"));
        }
        self.salt.clone().unwrap()
    }

    fn unlock(&mut self, password: &str) -> Result<Document, secret_store::UnlockError> {
        let salt = self.salt();
        let (doc, created) = initialize_or_load(self.container.as_ref(), password, &salt)?;
        if let Some(text) = created {
            self.container = Some(text);
        }
        Ok(doc)
    }

    fn save(&mut self, doc: &Document, password: &str) -> Result<(), secret_store::PersistError> {
        let salt = self.salt();
        let text = save(doc, password, &salt)?;
        self.container = Some(text);
        Ok(())
    }
}

#[test]
fn round_trip_preserves_document() {
    let mut disk = Disk::new();
    let mut doc = disk.unlock("hunter2").expect("first run");
    assert!(doc.set("plain".to_string(), "value".to_string()));
    assert!(doc.set("needs=escaping".to_string(), "line\nbreak \\ done".to_string()));
    assert!(doc.set("unicode \u{00e4}".to_string(), "\u{1F512} tight".to_string()));
    disk.save(&doc, "hunter2").expect("save");

    let back = disk.unlock("hunter2").expect("reopen");
    assert_eq!(back.len(), 3);
    assert_eq!(back.get("plain").unwrap().as_str(), "value");
    assert_eq!(back.get("needs=escaping").unwrap().as_str(), "line\nbreak \\ done");
    assert_eq!(back.get("unicode \u{00e4}").unwrap().as_str(), "\u{1F512} tight");
}

#[test]
fn wrong_password_fails() {
    let mut disk = Disk::new();
    let mut doc = disk.unlock("correct").expect("first run");
    assert!(doc.set("k".to_string(), "v".to_string()));
    disk.save(&doc, "correct").expect("save");

    assert!(disk.unlock("incorrect").is_err());
    assert!(disk.unlock("correct ").is_err());
    assert!(disk.unlock("").is_err());
}

#[test]
fn wrong_salt_fails() {
    let salt_a = vec![7u8; 16];
    let salt_b = vec![8u8; 16];
    let mut doc = Document::new();
    assert!(doc.set("k".to_string(), "v".to_string()));
    let container = save(&doc, "pw", &salt_a).expect("save");
    assert!(unlock(&container, "pw", &salt_b).is_err());
    assert!(unlock(&container, "pw", &salt_a).is_ok());
}

#[test]
fn tamper_detection() {
    let salt = vec![5u8; 16];
    let mut doc = Document::new();
    assert!(doc.set("k".to_string(), "v".to_string()));
    let container = save(&doc, "pw", &salt).expect("save");
    let bytes = container.as_bytes();
    let positions = [0, bytes.len() / 2, bytes.len() - 1];
    for &pos in positions.iter() {
        for bit in [0u8, 7u8] {
            let mut corrupt = bytes.to_vec();
            corrupt[pos] ^= 1 << bit;
            // a flip that leaves the file unreadable as text is caught
            // before the engine ever sees it
            let Ok(corrupt) = String::from_utf8(corrupt) else {
                continue;
            };
            assert_ne!(corrupt, container);
            assert!(unlock(&corrupt, "pw", &salt).is_err(), "bit {bit} at {pos} accepted");
        }
    }
}

#[test]
fn truncated_container_fails() {
    let salt = vec![5u8; 16];
    let doc = Document::new();
    let container = save(&doc, "pw", &salt).expect("save");
    assert!(unlock(&container[..4], "pw", &salt).is_err());
    assert!(unlock("", "pw", &salt).is_err());
    assert!(unlock("not base64 at all!!", "pw", &salt).is_err());
}

#[test]
fn fresh_nonce_each_save() {
    let salt = vec![9u8; 16];
    let mut doc = Document::new();
    assert!(doc.set("k".to_string(), "v".to_string()));
    let first = save(&doc, "pw", &salt).expect("save");
    let second = save(&doc, "pw", &salt).expect("save");
    assert_ne!(first, second);
    let a = base64::engine::general_purpose::STANDARD.decode(&first).expect("valid encoding");
    let b = base64::engine::general_purpose::STANDARD.decode(&second).expect("valid encoding");
    assert_ne!(a[..12], b[..12]);
}

#[test]
fn container_is_encoded_ciphertext_not_plaintext() {
    let salt = vec![3u8; 16];
    let mut doc = Document::new();
    assert!(doc.set("api_key".to_string(), "abc123".to_string()));
    let container = save(&doc, "pw", &salt).expect("save");
    let blob = base64::engine::general_purpose::STANDARD.decode(&container).expect("valid encoding");
    let body = b"api_key=abc123\n";
    // nonce, then ciphertext of the same length as the plaintext, then the tag
    assert_eq!(blob.len(), 12 + body.len() + 16);
    assert_ne!(&blob[12..12 + body.len()], &body[..]);
}

#[test]
fn salt_stays_stable_across_saves() {
    let mut disk = Disk::new();
    let mut doc = disk.unlock("pw").expect("first run");
    let salt_after_first_run = disk.salt.clone().expect("salt exists");
    assert_eq!(salt_after_first_run.len(), 16);
    for i in 0..3 {
        assert!(doc.set(format!("k{i}"), format!("v{i}")));
        disk.save(&doc, "pw").expect("save");
        assert_eq!(disk.salt.clone().unwrap(), salt_after_first_run);
    }
    let back = disk.unlock("pw").expect("reopen");
    assert_eq!(back.len(), 3);
}

#[test]
fn first_run_is_idempotent() {
    let mut disk = Disk::new();
    let doc1 = disk.unlock("pw").expect("first run");
    assert_eq!(doc1.len(), 0);
    assert!(disk.salt.is_some());
    assert!(disk.container.is_some());
    let doc2 = disk.unlock("pw").expect("second run");
    assert_eq!(doc2.len(), 0);
}

#[test]
fn first_run_password_becomes_store_password() {
    let mut disk = Disk::new();
    let _ = disk.unlock("chosen").expect("first run");
    assert!(disk.unlock("other").is_err());
    assert!(disk.unlock("chosen").is_ok());
}

#[test]
fn example_scenario() {
    let mut disk = Disk::new();
    let mut doc = disk.unlock("correct-horse").expect("establish store");
    assert!(doc.set("api_key".to_string(), "abc123".to_string()));
    disk.save(&doc, "correct-horse").expect("save");

    // restart: only the persisted files survive
    let mut disk = Disk { salt: disk.salt.clone(), container: disk.container.clone() };
    let doc = disk.unlock("correct-horse").expect("unlock");
    assert_eq!(doc.len(), 1);
    assert_eq!(doc.get("api_key").unwrap().as_str(), "abc123");
    assert!(disk.unlock("wrong").is_err());
}

use overlay_node::crypto::{content_id, digest, peer_id_of_key, NodeIdentity};
use overlay_node::id::PeerId;

fn hex(s: &str) -> Vec<u8> {
    (0..s.len() / 2).map(|i| u8::from_str_radix(&s[2 * i..2 * i + 2], 16).unwrap()).collect()
}

fn hex32(s: &str) -> [u8; 32] {
    let mut out = [0u8; 32];
    out.copy_from_slice(&hex(s));
    out
}

#[test]
fn digest_of_abc_is_the_known_sha256() {
    let expected = hex32("ba7816bf8f01cfea414140de5dae2223b00361a396177a9cb410ff61f20015ad");
    assert_eq!(digest(b"abc"), expected);
}

#[test]
fn digest_of_nothing_is_the_known_sha256() {
    let expected = hex32("e3b0c44298fc1c149afbf4c8996fb92427ae41e4649b934ca495991b7852b855");
    assert_eq!(digest(b""), expected);
}

#[test]
fn content_id_is_the_digest_of_the_key() {
    assert_eq!(content_id(b"abc"), PeerId::new(digest(b"abc")));
}

#[test]
fn identity_from_seed_has_the_public_key_of_the_seed() {
    let seed = hex32("9d61b19deffd5a60ba844af492ec2cc44449c5697b326919703bac031cae7f60");
    let public = hex32("d75a980182b10ab7d54bfed3c964073a0ee172f3daa62325af021a68f707511a");
    let identity = NodeIdentity::from_seed(seed);
    assert_eq!(identity.public_key(), public);
    assert_eq!(identity.id(), peer_id_of_key(&public));
    assert_eq!(identity.id(), PeerId::new(digest(&public)));
}

#[test]
fn identity_signs_as_the_scheme_prescribes() {
    let seed = hex32("9d61b19deffd5a60ba844af492ec2cc44449c5697b326919703bac031cae7f60");
    let signature = hex(
        "e5564300c360ac729086e2cc806e828a84877f1eb8e5d974d873e06522490155\
         5fb8821590a33bacc61e39701cf9b46bd25bf5f0595bbe24655141438e7a100b",
    );
    let identity = NodeIdentity::from_seed(seed);
    assert_eq!(identity.sign(b"").to_vec(), signature);
}

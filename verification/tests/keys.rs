use lbucket::keys::get_captcha_key;
use lbucket::keys::get_pocket_name;
use lbucket::keys::NodeIdentity;
use lbucket::keys::PKG_NAME;
use lbucket::target_instant;

#[test]
fn captcha_keys_are_prefixed() {
    assert_eq!(get_captcha_key("img1"), "mcaptcha_cache:captcha:img1");
    assert_eq!(get_captcha_key(""), "mcaptcha_cache:captcha:");
}

#[test]
fn pocket_names_embed_the_instant() {
    assert_eq!(get_pocket_name(0), "mcaptcha_cache:pocket:0");
    assert_eq!(get_pocket_name(1234567890), "mcaptcha_cache:pocket:1234567890");
    assert_eq!(
        get_pocket_name(u64::MAX),
        "mcaptcha_cache:pocket:18446744073709551615"
    );
}

#[test]
fn node_prefixes_pin_keys_with_a_hash_tag() {
    let node = NodeIdentity::new(42);
    assert_eq!(node.counter_prefix(), "lbucket:captcha:{42}:");
    assert_eq!(node.bucket_prefix(), "lbucket:bucket:{42}:");
}

#[test]
fn generated_identity_derives_well_formed_prefixes() {
    let node = NodeIdentity::generate();
    let prefix = node.counter_prefix();
    assert!(prefix.starts_with("lbucket:captcha:{"));
    assert!(prefix.ends_with("}:"));
    assert!(prefix.starts_with(&format!("{}:captcha:", PKG_NAME)));
}

#[test]
fn target_instants_round_to_whole_seconds() {
    assert_eq!(target_instant(100, 5), 105);
    assert_eq!(target_instant(0, 0), 0);
    assert_eq!(target_instant(u64::MAX - 7, 7), u64::MAX);
}

#[test]
fn different_nodes_never_collide() {
    let a = NodeIdentity::new(7);
    let b = NodeIdentity::new(70);
    assert_ne!(a.counter_prefix(), b.counter_prefix());
    assert_ne!(a.bucket_prefix(), b.bucket_prefix());
}

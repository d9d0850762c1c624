use bytes::Bytes;
use spatio::error::SpatioError;
use spatio::namespace::{Namespace, NamespaceManager};

#[test]
fn test_namespace_creation() {
    let ns = Namespace::new("test_namespace");
    assert_eq!(ns.name(), "test_namespace");
    assert_eq!(ns.separator(), "::");
}

#[test]
fn test_namespace_with_custom_separator() {
    let ns = Namespace::with_separator("test", ":");
    assert_eq!(ns.name(), "test");
    assert_eq!(ns.separator(), ":");
}

#[test]
fn test_key_creation() {
    let ns = Namespace::new("tenant_a");
    let key = ns.key(b"user:123");
    assert_eq!(key, Bytes::from("tenant_a::user:123"));
}

#[test]
fn test_key_str_creation() {
    let ns = Namespace::new("tenant_a");
    let key = ns.key_str("user:123");
    assert_eq!(key, Bytes::from("tenant_a::user:123"));
}

#[test]
fn test_prefix() {
    let ns = Namespace::new("tenant_a");
    let prefix = ns.prefix();
    assert_eq!(prefix, Bytes::from("tenant_a::"));
}

#[test]
fn test_owns_key() {
    let ns = Namespace::new("tenant_a");
    let key = ns.key(b"user:123");

    assert!(ns.owns_key(&key));
    assert!(!ns.owns_key(b"other::user:123"));
    assert!(!ns.owns_key(b"user:123"));
}

#[test]
fn test_strip_prefix() {
    let ns = Namespace::new("tenant_a");
    let original_key = b"user:123";
    let namespaced_key = ns.key(original_key);

    let stripped = ns.strip_prefix(&namespaced_key).unwrap();
    assert_eq!(stripped, Bytes::from(&original_key[..]));

    // Test with non-owned key
    assert!(ns.strip_prefix(b"other::user:123").is_none());
}

#[test]
fn test_namespace_validation() {
    assert!(Namespace::validate_name("valid_name", "::").is_ok());
    assert!(Namespace::validate_name("", "::").is_err());
    assert!(Namespace::validate_name("invalid::name", "::").is_err());
    assert!(Namespace::validate_name("null\0byte", "::").is_err());

    let long_name = "a".repeat(256);
    assert!(Namespace::validate_name(&long_name, "::").is_err());
}

#[test]
fn test_namespace_manager() {
    let manager = NamespaceManager::new();
    let ns = manager.namespace("namespace_a");
    let key = ns.key(b"user:123");

    let (parsed_ns, parsed_key) = manager.parse_key(&key).unwrap();
    assert_eq!(parsed_ns, "namespace_a");
    assert_eq!(parsed_key, Bytes::from("user:123"));
}

#[test]
fn test_namespace_manager_parse_non_namespaced_key() {
    let manager = NamespaceManager::new();
    assert!(manager.parse_key(b"simple_key").is_none());
}

#[test]
fn test_extract_namespaces() {
    let manager = NamespaceManager::new();
    let keys = [
        Bytes::from("namespace_a::user:1"),
        Bytes::from("namespace_b::user:2"),
        Bytes::from("namespace_a::order:1"),
        Bytes::from("simple_key"),
    ];

    let namespaces = manager.extract_namespaces(&keys);
    assert_eq!(namespaces, vec!["namespace_a", "namespace_b"]);
}

#[test]
fn test_key_belongs_to_namespace() {
    let manager = NamespaceManager::new();
    let key = Bytes::from("namespace_a::user:123");

    assert!(manager.key_belongs_to_namespace(&key, "namespace_a"));
    assert!(!manager.key_belongs_to_namespace(&key, "namespace_b"));
    assert!(!manager.key_belongs_to_namespace(b"simple_key", "namespace_a"));
}

#[test]
fn test_namespace_display() {
    let ns = Namespace::new("test_namespace");
    assert_eq!(ns.to_string(), "test_namespace");
}

#[test]
fn test_namespace_default() {
    let ns = Namespace::default();
    assert_eq!(ns.name(), "default");
}

#[test]
fn test_different_separators() {
    let ns1 = Namespace::with_separator("test", "::");
    let ns2 = Namespace::with_separator("test", ":");
    let ns3 = Namespace::with_separator("test", "/");

    assert_eq!(ns1.key(b"key"), Bytes::from("test::key"));
    assert_eq!(ns2.key(b"key"), Bytes::from("test:key"));
    assert_eq!(ns3.key(b"key"), Bytes::from("test/key"));
}

#[test]
fn test_namespace_equality() {
    let ns1 = Namespace::new("test");
    let ns2 = Namespace::new("test");
    let ns3 = Namespace::new("other");

    assert_eq!(ns1, ns2);
    assert_ne!(ns1, ns3);
}

#[test]
fn test_binary_keys() {
    let ns = Namespace::new("binary");
    let binary_key = vec![0u8, 1, 2, 255, 254];
    let namespaced = ns.key(&binary_key);

    assert!(ns.owns_key(&namespaced));
    let stripped = ns.strip_prefix(&namespaced).unwrap();
    assert_eq!(stripped.as_ref(), binary_key.as_slice());
}

#[test]
fn validation_messages_name_the_rule() {
    match Namespace::validate_name("", "::") {
        Err(SpatioError::Other(msg)) => assert_eq!(msg, "Namespace name cannot be empty"),
        _ => panic!("expected an error for an empty name"),
    }
    match Namespace::validate_name("a::b", "::") {
        Err(SpatioError::Other(msg)) => {
            assert_eq!(msg, "Namespace name 'a::b' cannot contain separator '::'")
        }
        _ => panic!("expected an error for a name with the separator"),
    }
    match Namespace::validate_name("a\0b", "::") {
        Err(SpatioError::Other(msg)) => assert_eq!(msg, "Namespace name cannot contain null bytes"),
        _ => panic!("expected an error for a NUL byte"),
    }
    match Namespace::validate_name(&"b".repeat(256), "::") {
        Err(SpatioError::Other(msg)) => {
            assert_eq!(msg, "Namespace name cannot exceed 255 characters")
        }
        _ => panic!("expected an error for a long name"),
    }
    assert!(Namespace::validate_name(&"b".repeat(255), "::").is_ok());
}

#[test]
fn same_key_in_two_namespaces_differs() {
    let a = Namespace::new("tenant_a");
    let b = Namespace::new("tenant_b");
    assert_ne!(a.key(b"user:1"), b.key(b"user:1"));
    assert!(!b.owns_key(&a.key(b"user:1")));
}

#[test]
fn parse_key_splits_at_first_separator() {
    let manager = NamespaceManager::new();
    let (ns, key) = manager.parse_key(b"a::b::c").unwrap();
    assert_eq!(ns, "a");
    assert_eq!(key, Bytes::from("b::c"));
    // A name that is not UTF-8: no namespace.
    assert!(manager.parse_key(&[0xffu8, b':', b':', b'x']).is_none());
}

#[test]
fn parse_key_keeps_binary_keys() {
    let manager = NamespaceManager::new();
    let ns = manager.namespace("bin");
    let key = ns.key(&[0xffu8, 0x00, b':']);
    let (name, rest) = manager.parse_key(&key).unwrap();
    assert_eq!(name, "bin");
    assert_eq!(rest, Bytes::copy_from_slice(&[0xffu8, 0x00, b':']));
    let (name, rest) = manager.parse_key(&[b'n', b':', b':', 0xfe]).unwrap();
    assert_eq!(name, "n");
    assert_eq!(rest, Bytes::copy_from_slice(&[0xfeu8]));
}

#[test]
fn parse_key_round_trips_key_str() {
    let manager = NamespaceManager::with_separator("/");
    let ns = manager.namespace("orders");
    let key = ns.key_str("2024/01");
    let (name, rest) = manager.parse_key(&key).unwrap();
    assert_eq!(name, "orders");
    assert_eq!(rest, Bytes::from("2024/01"));
    assert_eq!(manager.separator(), "/");
}

#[test]
fn extract_namespaces_sorted_unique() {
    let manager = NamespaceManager::default();
    let keys = [
        Bytes::from("zeta::1"),
        Bytes::from("alpha::2"),
        Bytes::from("zeta::3"),
        Bytes::from("mid::4"),
        Bytes::from("alpha::5"),
    ];
    assert_eq!(manager.extract_namespaces(&keys), vec!["alpha", "mid", "zeta"]);
    assert!(manager.extract_namespaces(&[]).is_empty());
}

#[test]
fn try_with_separator_refuses_what_with_separator_cannot_make() {
    let ns = Namespace::try_with_separator("users", "/").unwrap();
    assert_eq!(ns.name(), "users");
    assert_eq!(ns.separator(), "/");
    assert!(Namespace::try_with_separator("", "/").is_none());
    assert!(Namespace::try_with_separator("users", "").is_none());
    assert!(Namespace::try_with_separator("a/b", "/").is_none());
    assert!(Namespace::try_with_separator("a::b", "::").is_none());
    assert!(Namespace::try_with_separator("a:b", "::").is_some());
}

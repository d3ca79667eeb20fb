use openship::graph::Mangled;
use openship::hash::{
    content_hash, depencency_hash, effective_hash, program_hash, program_impl_hash, u64_to_hash, AbsHash, ImplHash,
};
use swc_core::common::{BytePos, Span};
use swc_core::ecma::ast::{Module, Program};

#[test]
fn test_hash() {
    let span = Span { hi: BytePos(1), lo: BytePos(0) };
    let program = Program::Module(Module { span: span, body: vec![], shebang: None });
    assert_eq!(u64_to_hash(0), "8GxynqChlO7");
    assert_eq!(program_hash(&program).0, AbsHash("osha_1ixxfAnWr3K4".to_string()).0);
}

#[test]
fn encoding_has_fixed_length_and_alphabet() {
    for n in [0u64, 1, 61, 62, u64::MAX, 0xdead_beef] {
        let h = u64_to_hash(n);
        assert_eq!(h.chars().count(), 11);
        assert!(h.chars().all(|c| c.is_ascii_alphanumeric()));
    }
    assert_ne!(u64_to_hash(1), u64_to_hash(2));
}

#[test]
fn content_hash_is_repeatable_and_tagged() {
    let a = content_hash(42);
    assert_eq!(a.0, content_hash(42).0);
    assert_ne!(a.0, content_hash(43).0);
    assert_eq!(a.0, format!("osha_1{}", u64_to_hash(42)));
    let e = effective_hash(42);
    assert_eq!(e.0, format!("oshi_1{}", u64_to_hash(42)));
    assert_ne!(a.0, e.0);
}

#[test]
fn dependency_hash_pair_shares_digest() {
    let (a, i) = depencency_hash("react", "18.2.0");
    assert!(a.0.starts_with("osha_1"));
    assert!(i.0.starts_with("oshi_1"));
    assert_eq!(a.0[6..], i.0[6..]);
    let (a2, _) = depencency_hash("react", "18.3.0");
    assert_ne!(a.0, a2.0);
    let (a3, _) = depencency_hash("react", "18.2.0");
    assert_eq!(a.0, a3.0);
}

#[test]
fn effective_hash_follows_dependency_hashes() {
    let abs = AbsHash("osha_1abc".to_string());
    let d1 = vec![(Mangled("app::b::js".to_string()), ImplHash("oshi_1one".to_string()))];
    let d2 = vec![(Mangled("app::b::js".to_string()), ImplHash("oshi_1two".to_string()))];
    let h1 = program_impl_hash(&abs, &d1);
    let h2 = program_impl_hash(&abs, &d2);
    assert!(h1.0.starts_with("oshi_1"));
    assert_ne!(h1.0, h2.0);
    assert_eq!(h1.0, program_impl_hash(&abs, &d1).0);
    assert_ne!(h1.0, program_impl_hash(&abs, &vec![]).0);
}

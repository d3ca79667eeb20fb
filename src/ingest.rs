//! Nodes built from what the host hands over for one module, and the
//! decision taken after a failed attempt to open the shared log.
use crate::graph::{dep_set, keys_view, Mangled, Node, Object, Scope, Version, Extension};
use crate::hash::{content_hash_spec, dependency_digest, depencency_hash, effective_hash_spec, AbsHash};
use crate::text::keys_ascending;
use vstd::prelude::*;

verus! {

/// How many times opening the log is retried before giving up.
pub const MAX_RETRIES: u32 = 8;

/// Pause between two attempts to open the log, in milliseconds.
pub const RETRY_DELAY_MS: u64 = 100;

pub open spec fn app_scope() -> Seq<char> {
    seq!['a', 'p', 'p']
}

/// The node of a project module: scope `app`, no effective hash yet, and
/// its dependency keys as a set.
pub fn module_node(object: String, extension: Option<String>, abs: AbsHash, deps: Vec<Mangled>) -> (r: Node)
    ensures
        r@.o == object@,
        r@.s == app_scope(),
        r@.e == (match extension {
            Some(x) => Some(x@),
            None => None::<Seq<char>>,
        }),
        r@.a == abs@,
        r@.i is None,
        keys_ascending(r@.d),
        r@.d.to_set() == keys_view(deps@).to_set(),
        r@.v is None,
{
    proof {
        reveal_strlit("app");
        assert("app"@ =~= app_scope());
    }
    let e = match extension {
        Some(x) => Some(Extension(x)),
        None => None,
    };
    Node {
        o: Object(object),
        s: Scope(String::from_str("app")),
        e,
        a: abs,
        i: None,
        d: dep_set(deps),
        v: None,
    }
}

pub open spec fn package_scope() -> Seq<char> {
    seq!['d', 'e', 'p']
}

/// The node of an external package: scope `dep`, no extension and no
/// dependencies, both hashes derived from name and version.
pub fn package_node(name: &str, version: &str) -> (r: Node)
    ensures
        r@.o == name@,
        r@.s == package_scope(),
        r@.e is None,
        r@.a == content_hash_spec(dependency_digest(name@, version@)),
        r@.i == Some(effective_hash_spec(dependency_digest(name@, version@))),
        r@.d.len() == 0,
        r@.v == Some(version@),
{
    proof {
        reveal_strlit("dep");
        assert("dep"@ =~= package_scope());
    }
    let (a, i) = depencency_hash(name, version);
    let d: Vec<Mangled> = Vec::new();
    let r = Node {
        o: Object(String::from_str(name)),
        s: Scope(String::from_str("dep")),
        e: None,
        a,
        i: Some(i),
        d,
        v: Some(Version(String::from_str(version))),
    };
    proof {
        assert(r@.d.len() == 0);
    }
    r
}

/// After an attempt to open the log failed with `retries` retries already
/// made: the retry count to wait and try again with, or `None` to give up.
pub fn after_failed_open(retries: u32) -> (r: Option<u32>)
    ensures
        retries < MAX_RETRIES ==> r == Some((retries + 1) as u32),
        retries >= MAX_RETRIES ==> r is None,
{
    if retries < MAX_RETRIES {
        Some(retries + 1)
    } else {
        None
    }
}

} // verus!

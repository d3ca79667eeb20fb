//! Nodes, their keys, and the two-layer graph that holds them.
use crate::hash::{AbsHash, ImplHash};
use crate::text::{keys_ascending, lemma_str_lt_total, less_than, str_lt};
use vstd::prelude::*;

verus! {

/// Logical module path without its extension.
pub struct Object(pub String);

/// Namespace of a node: `app` for the project's modules, `dep` for packages.
pub struct Scope(pub String);

/// Version of an external package.
pub struct Version(pub String);

/// Raw file extension of a module.
pub struct Extension(pub String);

/// The key under which a node is stored and looked up.
pub struct Mangled(pub String);

impl View for Mangled {
    type V = Seq<char>;

    open spec fn view(&self) -> Seq<char> {
        self.0@
    }
}

impl Mangled {
    pub fn duplicate(&self) -> (r: Mangled)
        ensures
            r@ == self@,
    {
        Mangled(self.0.clone())
    }
}

/// One module of the graph. `d` lists the keys of its dependencies in
/// ascending order, each once.
pub struct Node {
    pub o: Object,
    pub s: Scope,
    pub e: Option<Extension>,
    pub a: AbsHash,
    pub i: Option<ImplHash>,
    pub d: Vec<Mangled>,
    pub v: Option<Version>,
}

/// What a node holds, as character sequences.
pub struct NodeView {
    pub o: Seq<char>,
    pub s: Seq<char>,
    pub e: Option<Seq<char>>,
    pub a: Seq<char>,
    pub i: Option<Seq<char>>,
    pub d: Seq<Seq<char>>,
    pub v: Option<Seq<char>>,
}

pub open spec fn keys_view(keys: Seq<Mangled>) -> Seq<Seq<char>> {
    keys.map_values(|k: Mangled| k@)
}

impl View for Node {
    type V = NodeView;

    open spec fn view(&self) -> NodeView {
        NodeView {
            o: self.o.0@,
            s: self.s.0@,
            e: match self.e {
                Some(x) => Some(x.0@),
                None => None,
            },
            a: self.a@,
            i: match self.i {
                Some(x) => Some(x@),
                None => None,
            },
            d: keys_view(self.d@),
            v: match self.v {
                Some(x) => Some(x.0@),
                None => None,
            },
        }
    }
}

pub open spec fn dep_scope() -> Seq<char> {
    seq!['d', 'e', 'p']
}

pub open spec fn js_class(e: Seq<char>) -> bool {
    e == seq!['j', 's'] || e == seq!['j', 's', 'x'] || e == seq!['t', 's'] || e == seq!['t', 's', 'x']
}

pub open spec fn sep() -> Seq<char> {
    seq![':', ':']
}

/// What follows the object in a key: nothing for a package, else the
/// normalised class of the extension.
pub open spec fn key_suffix(scope: Seq<char>, ext: Option<Seq<char>>) -> Seq<char> {
    if scope == dep_scope() {
        Seq::empty()
    } else {
        match ext {
            Some(e) => if js_class(e) {
                sep() + seq!['j', 's']
            } else if e == seq!['c', 's', 's'] {
                sep() + seq!['c', 's', 's']
            } else {
                Seq::empty()
            },
            None => Seq::empty(),
        }
    }
}

/// The key of a node with this scope, object and extension.
pub open spec fn mangle_spec(scope: Seq<char>, object: Seq<char>, ext: Option<Seq<char>>) -> Seq<char> {
    scope + sep() + object + key_suffix(scope, ext)
}

pub open spec fn node_key(n: NodeView) -> Seq<char> {
    mangle_spec(n.s, n.o, n.e)
}

impl NodeView {
    /// Dependencies are listed by ascending key.
    pub open spec fn wf(self) -> bool {
        keys_ascending(self.d)
    }
}

fn same_opt_string(x: &Option<String>, y: &Option<String>) -> (r: bool)
    ensures
        r == (match (*x, *y) {
            (Some(a), Some(b)) => a@ == b@,
            (None, None) => true,
            _ => false,
        }),
{
    match (x, y) {
        (Some(a), Some(b)) => *a == *b,
        (None, None) => true,
        _ => false,
    }
}

/// A copy of a list of keys.
pub fn clone_keys(keys: &Vec<Mangled>) -> (r: Vec<Mangled>)
    ensures
        keys_view(r@) == keys_view(keys@),
{
    let mut out: Vec<Mangled> = Vec::new();
    let mut j: usize = 0;
    while j < keys.len()
        invariant
            j <= keys@.len(),
            keys_view(out@) == keys_view(keys@).subrange(0, j as int),
        decreases keys.len() - j,
    {
        let ghost before = out@;
        out.push(keys[j].duplicate());
        proof {
            assert(keys_view(out@) =~= keys_view(before).push(keys@[j as int]@));
            assert(keys_view(out@) =~= keys_view(keys@).subrange(0, j + 1));
        }
        j = j + 1;
    }
    proof {
        assert(keys_view(keys@).subrange(0, j as int) =~= keys_view(keys@));
    }
    out
}

fn same_keys(x: &Vec<Mangled>, y: &Vec<Mangled>) -> (r: bool)
    ensures
        r == (keys_view(x@) == keys_view(y@)),
{
    if x.len() != y.len() {
        proof {
            assert(keys_view(x@).len() != keys_view(y@).len());
        }
        return false;
    }
    let mut j: usize = 0;
    while j < x.len()
        invariant
            j <= x@.len(),
            x@.len() == y@.len(),
            keys_view(x@).subrange(0, j as int) == keys_view(y@).subrange(0, j as int),
        decreases x.len() - j,
    {
        if x[j].0 != y[j].0 {
            proof {
                assert(keys_view(x@)[j as int] != keys_view(y@)[j as int]);
            }
            return false;
        }
        proof {
            assert(keys_view(x@).subrange(0, j + 1) =~= keys_view(y@).subrange(0, j + 1));
        }
        j = j + 1;
    }
    proof {
        assert(keys_view(x@).subrange(0, j as int) =~= keys_view(x@));
        assert(keys_view(y@).subrange(0, j as int) =~= keys_view(y@));
    }
    true
}

/// Whether `keys` holds `k`.
pub fn has_key(keys: &Vec<Mangled>, k: &Mangled) -> (r: bool)
    ensures
        r == keys_view(keys@).contains(k@),
{
    let mut j: usize = 0;
    while j < keys.len()
        invariant
            j <= keys@.len(),
            forall|m: int| 0 <= m < j ==> keys_view(keys@)[m] != k@,
        decreases keys.len() - j,
    {
        if keys[j].0 == k.0 {
            proof {
                assert(keys_view(keys@)[j as int] == k@);
            }
            return true;
        }
        j = j + 1;
    }
    false
}

/// The keys of `keys`, each once, in ascending order: the canonical form of
/// a node's dependency set.
pub fn dep_set(keys: Vec<Mangled>) -> (r: Vec<Mangled>)
    ensures
        keys_ascending(keys_view(r@)),
        keys_view(r@).to_set() == keys_view(keys@).to_set(),
{
    let mut out: Vec<Mangled> = Vec::new();
    let mut j: usize = 0;
    proof {
        assert(keys_view(out@).to_set() =~= keys_view(keys@).subrange(0, 0).to_set());
    }
    while j < keys.len()
        invariant
            j <= keys@.len(),
            keys_ascending(keys_view(out@)),
            keys_view(out@).to_set() == keys_view(keys@).subrange(0, j as int).to_set(),
        decreases keys.len() - j,
    {
        let k = &keys[j];
        let ghost kv = k@;
        let ghost before = keys_view(out@);
        proof {
            assert(keys_view(keys@).subrange(0, j + 1) =~= keys_view(keys@).subrange(0, j as int).push(kv));
            let pushed = keys_view(keys@).subrange(0, j as int).push(kv);
            assert forall|x: Seq<char>| pushed.contains(x) <==> keys_view(keys@).subrange(0, j as int).contains(x) || x == kv by {
                vstd::seq_lib::lemma_seq_contains_after_push(keys_view(keys@).subrange(0, j as int), kv, x);
            }
            assert(keys_view(keys@).subrange(0, j + 1).to_set() =~= before.to_set().insert(kv));
        }
        let mut p: usize = 0;
        let mut going = true;
        while going && p < out.len()
            invariant
                p <= out@.len(),
                before == keys_view(out@),
                kv == k@,
                p > 0 ==> str_lt(before[p - 1], kv),
                !going ==> p < out@.len() && !str_lt(before[p as int], kv),
            decreases out@.len() - p + if going { 1int } else { 0int },
        {
            proof {
                assert(before[p as int] == out@[p as int]@);
            }
            if less_than(out[p].0.as_str(), k.0.as_str()) {
                p = p + 1;
            } else {
                going = false;
            }
        }
        if p < out.len() && out[p].0 == k.0 {
            proof {
                assert(before[p as int] == kv);
                assert(before.to_set().insert(kv) =~= before.to_set());
            }
        } else {
            proof {
                if p < before.len() {
                    assert(before[p as int] == out@[p as int]@);
                    assert(before[p as int] != kv);
                    assert(!str_lt(before[p as int], kv));
                    lemma_str_lt_total(before[p as int], kv);
                }
            }
            out.insert(p, k.duplicate());
            proof {
                let after = keys_view(out@);
                assert(after =~= before.insert(p as int, kv));
                assert forall|i: int| 0 <= i < after.len() - 1 implies #[trigger] str_lt(after[i], after[i + 1]) by {
                    if i < p as int - 1 {
                        assert(after[i] == before[i] && after[i + 1] == before[i + 1]);
                        assert(str_lt(before[i], before[i + 1]));
                    } else if i == p as int - 1 {
                        assert(after[i] == before[i] && after[i + 1] == kv);
                    } else if i == p as int {
                        assert(after[i] == kv && after[i + 1] == before[p as int]);
                    } else {
                        let m = i - 1;
                        assert(after[i] == before[m] && after[i + 1] == before[m + 1]);
                        assert(str_lt(before[m], before[m + 1]));
                    }
                }
                assert(after.to_set() =~= before.to_set().insert(kv)) by {
                    assert forall|x: Seq<char>| after.contains(x) <==> before.contains(x) || x == kv by {
                        if after.contains(x) {
                            let i = choose|i: int| 0 <= i < after.len() && after[i] == x;
                            if i < p as int {
                                assert(before[i] == x);
                            } else if i > p as int {
                                assert(before[i - 1] == x);
                            }
                        }
                        if before.contains(x) {
                            let i = choose|i: int| 0 <= i < before.len() && before[i] == x;
                            if i < p as int {
                                assert(after[i] == x);
                            } else {
                                assert(after[i + 1] == x);
                            }
                        }
                        if x == kv {
                            assert(after[p as int] == x);
                        }
                    }
                }
            }
        }
        j = j + 1;
    }
    proof {
        assert(keys_view(keys@).subrange(0, j as int) =~= keys_view(keys@));
    }
    out
}

impl Node {
    /// A copy of this node.
    pub fn duplicate(&self) -> (r: Node)
        ensures
            r@ == self@,
    {
        let e = match &self.e {
            Some(x) => Some(Extension(x.0.clone())),
            None => None,
        };
        let i = match &self.i {
            Some(x) => Some(x.duplicate()),
            None => None,
        };
        let v = match &self.v {
            Some(x) => Some(Version(x.0.clone())),
            None => None,
        };
        Node {
            o: Object(self.o.0.clone()),
            s: Scope(self.s.0.clone()),
            e,
            a: self.a.duplicate(),
            i,
            d: clone_keys(&self.d),
            v,
        }
    }

    /// Whether two nodes hold the same values in every field.
    pub fn same(&self, other: &Node) -> (r: bool)
        ensures
            r == (self@ == other@),
    {
        let e1 = match &self.e {
            Some(x) => Some(x.0.clone()),
            None => None,
        };
        let e2 = match &other.e {
            Some(x) => Some(x.0.clone()),
            None => None,
        };
        let i1 = match &self.i {
            Some(x) => Some(x.0.clone()),
            None => None,
        };
        let i2 = match &other.i {
            Some(x) => Some(x.0.clone()),
            None => None,
        };
        let v1 = match &self.v {
            Some(x) => Some(x.0.clone()),
            None => None,
        };
        let v2 = match &other.v {
            Some(x) => Some(x.0.clone()),
            None => None,
        };
        self.o.0 == other.o.0 && self.s.0 == other.s.0 && same_opt_string(&e1, &e2)
            && self.a.0 == other.a.0 && same_opt_string(&i1, &i2) && same_keys(&self.d, &other.d)
            && same_opt_string(&v1, &v2)
    }
}

/// The key of a node: scope, object and the class of the extension.
fn mangle_key(scope: &Scope, object: &Object, extension: &Option<Extension>) -> (r: Mangled)
    ensures
        r@ == mangle_spec(scope.0@, object.0@, match extension {
            Some(x) => Some(x.0@),
            None => None,
        }),
{
    proof {
        reveal_strlit("dep");
        reveal_strlit("js");
        reveal_strlit("jsx");
        reveal_strlit("ts");
        reveal_strlit("tsx");
        reveal_strlit("css");
        reveal_strlit("::");
        reveal_strlit("::js");
        reveal_strlit("::css");
        assert("dep"@ =~= dep_scope());
        assert("::"@ =~= sep());
        assert("::js"@ =~= sep() + seq!['j', 's']);
        assert("::css"@ =~= sep() + seq!['c', 's', 's']);
    }
    let mut key = scope.0.clone();
    key.append("::");
    key.append(object.0.as_str());
    if scope.0 != String::from_str("dep") {
        match extension {
            Some(x) => {
                let e = &x.0;
                if *e == String::from_str("js") || *e == String::from_str("jsx") || *e
                    == String::from_str("ts") || *e == String::from_str("tsx") {
                    proof {
                        assert("js"@ =~= seq!['j', 's']);
                        assert("jsx"@ =~= seq!['j', 's', 'x']);
                        assert("ts"@ =~= seq!['t', 's']);
                        assert("tsx"@ =~= seq!['t', 's', 'x']);
                    }
                    key.append("::js");
                } else if *e == String::from_str("css") {
                    proof {
                        assert("css"@ =~= seq!['c', 's', 's']);
                        assert(!js_class(e@));
                    }
                    key.append("::css");
                } else {
                    proof {
                        assert("css"@ =~= seq!['c', 's', 's']);
                        assert("js"@ =~= seq!['j', 's']);
                        assert("jsx"@ =~= seq!['j', 's', 'x']);
                        assert("ts"@ =~= seq!['t', 's']);
                        assert("tsx"@ =~= seq!['t', 's', 'x']);
                    }
                }
            },
            None => {},
        }
    }
    proof {
        assert(key@ =~= mangle_spec(scope.0@, object.0@, match extension {
            Some(x) => Some(x.0@),
            None => None,
        }));
    }
    Mangled(key)
}

/// The key of a node.
pub fn node_mangle(n: &Node) -> (r: Mangled)
    ensures
        r@ == node_key(n@),
{
    mangle_key(&n.s, &n.o, &n.e)
}

pub open spec fn nodes_view(s: Seq<Node>) -> Seq<NodeView> {
    s.map_values(|n: Node| n@)
}

pub open spec fn layer_keys(s: Seq<NodeView>) -> Seq<Seq<char>> {
    s.map_values(|n: NodeView| node_key(n))
}

/// No two nodes of a layer share a key.
pub open spec fn unique_keys(s: Seq<NodeView>) -> bool {
    layer_keys(s).no_duplicates()
}

/// A layer as a map from key to node.
pub open spec fn layer_map(s: Seq<NodeView>) -> Map<Seq<char>, NodeView> {
    Map::new(
        |k: Seq<char>| layer_keys(s).contains(k),
        |k: Seq<char>| s[choose|i: int| 0 <= i < s.len() && node_key(s[i]) == k],
    )
}

/// The nodes loaded at the start (`existing`) and those stored since (`new`).
pub struct GraphView {
    pub existing: Map<Seq<char>, NodeView>,
    pub new: Map<Seq<char>, NodeView>,
}

impl GraphView {
    /// Lookup with `new` shadowing `existing`.
    pub open spec fn lookup(self, k: Seq<char>) -> Option<NodeView> {
        if self.new.contains_key(k) {
            Some(self.new[k])
        } else if self.existing.contains_key(k) {
            Some(self.existing[k])
        } else {
            None
        }
    }
}

/// Two layers of nodes by key: `existing`, read once, and `new`, which
/// receives every change and is the only layer written out.
pub struct Graph {
    existing: Vec<Node>,
    new: Vec<Node>,
}

impl View for Graph {
    type V = GraphView;

    closed spec fn view(&self) -> GraphView {
        GraphView {
            existing: layer_map(nodes_view(self.existing@)),
            new: layer_map(nodes_view(self.new@)),
        }
    }
}

proof fn lemma_layer_index(s: Seq<NodeView>, i: int)
    requires
        unique_keys(s),
        0 <= i < s.len(),
    ensures
        layer_map(s).contains_key(node_key(s[i])),
        layer_map(s)[node_key(s[i])] == s[i],
{
    let k = node_key(s[i]);
    assert(layer_keys(s)[i] == k);
    let j = choose|j: int| 0 <= j < s.len() && node_key(s[j]) == k;
    assert(layer_keys(s)[j] == k);
}

proof fn lemma_layer_has(s: Seq<NodeView>, k: Seq<char>)
    requires
        layer_map(s).contains_key(k),
    ensures
        exists|i: int| 0 <= i < s.len() && node_key(s[i]) == k,
{
    let i = choose|i: int| 0 <= i < layer_keys(s).len() && layer_keys(s)[i] == k;
    assert(node_key(s[i]) == k);
}

/// A layer with unique keys is the map that sends each node's key to it.
proof fn lemma_layer_equal(s: Seq<NodeView>, m: Map<Seq<char>, NodeView>)
    requires
        unique_keys(s),
        forall|k: Seq<char>| m.contains_key(k) <==> layer_keys(s).contains(k),
        forall|i: int| 0 <= i < s.len() ==> #[trigger] m[node_key(s[i])] == s[i],
    ensures
        layer_map(s) == m,
{
    assert forall|k: Seq<char>| #[trigger] layer_map(s).contains_key(k) implies layer_map(s)[k] == m[k] by {
        lemma_layer_has(s, k);
        let i = choose|i: int| 0 <= i < s.len() && node_key(s[i]) == k;
        lemma_layer_index(s, i);
    }
    assert(layer_map(s) =~= m);
}

proof fn lemma_layer_push(s: Seq<NodeView>, n: NodeView)
    requires
        unique_keys(s),
        !layer_map(s).contains_key(node_key(n)),
    ensures
        unique_keys(s.push(n)),
        layer_map(s.push(n)) == layer_map(s).insert(node_key(n), n),
{
    let t = s.push(n);
    assert(layer_keys(t) =~= layer_keys(s).push(node_key(n)));
    assert(unique_keys(t)) by {
        assert forall|i: int, j: int|
            0 <= i < layer_keys(t).len() && 0 <= j < layer_keys(t).len() && i != j
            implies layer_keys(t)[i] != layer_keys(t)[j] by {
            if i < s.len() && j < s.len() {
            } else if i < s.len() {
                assert(layer_keys(s)[i] == layer_keys(t)[i]);
                assert(layer_keys(s).contains(layer_keys(s)[i]));
            } else {
                assert(layer_keys(s)[j] == layer_keys(t)[j]);
                assert(layer_keys(s).contains(layer_keys(s)[j]));
            }
        }
    }
    let m = layer_map(s).insert(node_key(n), n);
    assert forall|i: int| 0 <= i < t.len() implies #[trigger] m[node_key(t[i])] == t[i] by {
        if i < s.len() {
            lemma_layer_index(s, i);
            assert(t[i] == s[i]);
        }
    }
    assert forall|k: Seq<char>| m.contains_key(k) <==> layer_keys(t).contains(k) by {
        if k == node_key(n) {
            assert(layer_keys(t)[s.len() as int] == k);
        }
        if layer_keys(s).contains(k) {
            let i = choose|i: int| 0 <= i < layer_keys(s).len() && layer_keys(s)[i] == k;
            assert(layer_keys(t)[i] == k);
        }
        if layer_keys(t).contains(k) {
            let i = choose|i: int| 0 <= i < layer_keys(t).len() && layer_keys(t)[i] == k;
            if i < s.len() {
                assert(layer_keys(s)[i] == k);
            }
        }
    }
    lemma_layer_equal(t, m);
}

proof fn lemma_layer_update(s: Seq<NodeView>, i: int, n: NodeView)
    requires
        unique_keys(s),
        0 <= i < s.len(),
        node_key(s[i]) == node_key(n),
    ensures
        unique_keys(s.update(i, n)),
        layer_map(s.update(i, n)) == layer_map(s).insert(node_key(n), n),
{
    let t = s.update(i, n);
    assert(layer_keys(t) =~= layer_keys(s));
    let m = layer_map(s).insert(node_key(n), n);
    lemma_layer_index(s, i);
    assert forall|j: int| 0 <= j < t.len() implies #[trigger] m[node_key(t[j])] == t[j] by {
        if j != i {
            lemma_layer_index(s, j);
            assert(layer_keys(s)[j] != layer_keys(s)[i]);
        }
    }
    assert(layer_keys(s)[i] == node_key(n));
    assert(layer_keys(s).contains(node_key(n)));
    assert forall|k: Seq<char>| m.contains_key(k) <==> layer_keys(t).contains(k) by {
    }
    lemma_layer_equal(t, m);
}

/// Position of the node with key `k` in a layer, if there is one.
fn position(layer: &Vec<Node>, k: &Mangled) -> (r: Option<usize>)
    requires
        unique_keys(nodes_view(layer@)),
    ensures
        match r {
            Some(i) => i < layer@.len() && node_key(layer@[i as int]@) == k@,
            None => !layer_map(nodes_view(layer@)).contains_key(k@),
        },
{
    let mut j: usize = 0;
    while j < layer.len()
        invariant
            j <= layer@.len(),
            forall|m: int| 0 <= m < j ==> node_key(layer@[m]@) != k@,
        decreases layer.len() - j,
    {
        let key = node_mangle(&layer[j]);
        if key.0 == k.0 {
            return Some(j);
        }
        j = j + 1;
    }
    proof {
        if layer_map(nodes_view(layer@)).contains_key(k@) {
            lemma_layer_has(nodes_view(layer@), k@);
            let i = choose|i: int| 0 <= i < nodes_view(layer@).len() && node_key(nodes_view(layer@)[i]) == k@;
            assert(node_key(layer@[i]@) == k@);
        }
    }
    None
}

/// Every node of a layer lists its dependencies by ascending key.
pub open spec fn all_wf(s: Seq<NodeView>) -> bool {
    forall|i: int| 0 <= i < s.len() ==> (#[trigger] s[i]).wf()
}

pub open spec fn ext_view(e: Option<Extension>) -> Option<Seq<char>> {
    match e {
        Some(x) => Some(x.0@),
        None => None,
    }
}

impl Graph {
    /// Keys are unique within each layer.
    pub closed spec fn wf(&self) -> bool {
        unique_keys(nodes_view(self.existing@)) && unique_keys(nodes_view(self.new@)) && all_wf(
            nodes_view(self.existing@),
        ) && all_wf(nodes_view(self.new@))
    }

    /// An empty graph.
    pub fn new() -> (r: Graph)
        ensures
            r.wf(),
            r@.existing == Map::<Seq<char>, NodeView>::empty(),
            r@.new == Map::<Seq<char>, NodeView>::empty(),
    {
        let r = Graph { existing: Vec::new(), new: Vec::new() };
        proof {
            assert(layer_map(nodes_view(r.existing@)) =~= Map::<Seq<char>, NodeView>::empty());
            assert(layer_map(nodes_view(r.new@)) =~= Map::<Seq<char>, NodeView>::empty());
        }
        r
    }

    /// The key of a node with this scope, object and extension.
    pub fn mangle(scope: &Scope, object: &Object, extension: &Option<Extension>) -> (r: Mangled)
        ensures
            r@ == mangle_spec(scope.0@, object.0@, ext_view(*extension)),
    {
        mangle_key(scope, object, extension)
    }

    /// The node stored under `k`, `new` shadowing `existing`.
    pub fn get(&self, k: &Mangled) -> (r: Option<&Node>)
        requires
            self.wf(),
        ensures
            match r {
                Some(n) => self@.lookup(k@) == Some(n@),
                None => self@.lookup(k@) is None,
            },
    {
        match position(&self.new, k) {
            Some(i) => {
                proof {
                    lemma_layer_index(nodes_view(self.new@), i as int);
                }
                Some(&self.new[i])
            },
            None => match position(&self.existing, k) {
                Some(i) => {
                    proof {
                        lemma_layer_index(nodes_view(self.existing@), i as int);
                    }
                    Some(&self.existing[i])
                },
                None => None,
            },
        }
    }

    /// Stores `v` in `new` under its key, unless the node already found under
    /// that key is the same; tells whether anything changed.
    pub fn insert(&mut self, v: Node) -> (r: bool)
        requires
            old(self).wf(),
            v@.wf(),
        ensures
            final(self).wf(),
            r == (old(self)@.lookup(node_key(v@)) != Some(v@)),
            r ==> final(self)@ == (GraphView {
                existing: old(self)@.existing,
                new: old(self)@.new.insert(node_key(v@), v@),
            }),
            !r ==> final(self)@ == old(self)@,
    {
        let k = node_mangle(&v);
        match self.get(&k) {
            Some(v0) => {
                if v.same(v0) {
                    return false;
                }
            },
            None => {},
        }
        let ghost vv = v@;
        match position(&self.new, &k) {
            Some(i) => {
                proof {
                    lemma_layer_update(nodes_view(self.new@), i as int, vv);
                    assert(nodes_view(self.new@.update(i as int, v)) =~= nodes_view(self.new@).update(i as int, vv));
                }
                self.new.set(i, v);
            },
            None => {
                proof {
                    lemma_layer_push(nodes_view(self.new@), vv);
                    assert(nodes_view(self.new@.push(v)) =~= nodes_view(self.new@).push(vv));
                }
                self.new.push(v);
            },
        }
        true
    }

    /// Number of stored nodes, counting both layers.
    pub fn len(&self) -> (r: usize)
        requires
            self.wf(),
            self@.existing.len() + self@.new.len() <= usize::MAX,
        ensures
            r == self@.existing.len() + self@.new.len(),
    {
        proof {
            lemma_layer_len(nodes_view(self.existing@));
            lemma_layer_len(nodes_view(self.new@));
        }
        self.existing.len() + self.new.len()
    }
}

impl Graph {
    /// Nodes found in a well-formed graph list their dependencies in order.
    pub proof fn lemma_lookup_wf(&self, k: Seq<char>)
        requires
            self.wf(),
            self@.lookup(k) is Some,
        ensures
            self@.lookup(k)->0.wf(),
    {
        let nv = nodes_view(self.new@);
        let ev = nodes_view(self.existing@);
        if layer_map(nv).contains_key(k) {
            lemma_layer_has(nv, k);
            let m = choose|m: int| 0 <= m < nv.len() && node_key(nv[m]) == k;
            lemma_layer_index(nv, m);
        } else {
            lemma_layer_has(ev, k);
            let m = choose|m: int| 0 <= m < ev.len() && node_key(ev[m]) == k;
            lemma_layer_index(ev, m);
        }
    }

    /// The current version of every node that depends on `dep`, each key
    /// once.
    pub fn find_with_dep(&self, dep: Mangled) -> (r: Vec<Node>)
        requires
            self.wf(),
        ensures
            unique_keys(nodes_view(r@)),
            forall|j: int|
                0 <= j < r@.len() ==> self@.lookup(node_key(#[trigger] r@[j]@)) == Some(r@[j]@)
                    && r@[j]@.d.contains(dep@),
            forall|k: Seq<char>|
                #[trigger] self@.lookup(k) is Some && self@.lookup(k)->0.d.contains(dep@) ==> exists|j: int|
                    0 <= j < r@.len() && node_key(r@[j]@) == k,
    {
        let ghost nv = nodes_view(self.new@);
        let ghost ev = nodes_view(self.existing@);
        let mut out: Vec<Node> = Vec::new();
        let ghost mut src: Seq<int> = Seq::empty();
        let mut j: usize = 0;
        while j < self.new.len()
            invariant
                self.wf(),
                nv == nodes_view(self.new@),
                j <= self.new@.len(),
                unique_keys(nodes_view(out@)),
                forall|jj: int|
                    0 <= jj < out@.len() ==> self@.lookup(node_key(#[trigger] out@[jj]@)) == Some(out@[jj]@)
                        && out@[jj]@.d.contains(dep@),
                forall|m: int|
                    0 <= m < j && (#[trigger] nv[m]).d.contains(dep@) ==> exists|jj: int|
                        0 <= jj < out@.len() && node_key(out@[jj]@) == node_key(nv[m]),
                src.len() == out@.len(),
                forall|jj: int|
                    0 <= jj < out@.len() ==> 0 <= #[trigger] src[jj] < j && node_key(out@[jj]@) == node_key(
                        nv[src[jj]],
                    ),
            decreases self.new.len() - j,
        {
            let n = &self.new[j];
            if has_key(&n.d, &dep) {
                let c = n.duplicate();
                let ghost before = out@;
                proof {
                    lemma_layer_index(nv, j as int);
                    assert(nv[j as int] == n@);
                    if layer_map(nodes_view(before)).contains_key(node_key(c@)) {
                        lemma_layer_has(nodes_view(before), node_key(c@));
                        let jj = choose|jj: int|
                            0 <= jj < nodes_view(before).len() && node_key(nodes_view(before)[jj]) == node_key(c@);
                        assert(node_key(before[jj]@) == node_key(c@));
                        let m = src[jj];
                        assert(layer_keys(nv)[m] == layer_keys(nv)[j as int]);
                    }
                    lemma_layer_push(nodes_view(before), c@);
                }
                out.push(c);
                proof {
                    assert(nodes_view(out@) =~= nodes_view(before).push(c@));
                    assert(out@[before.len() as int] == c);
                    src = src.push(j as int);
                    assert forall|jj: int| 0 <= jj < out@.len() implies 0 <= #[trigger] src[jj] < j + 1
                        && node_key(out@[jj]@) == node_key(nv[src[jj]]) by {
                        if jj < before.len() {
                            assert(out@[jj] == before[jj]);
                        }
                    }
                    assert forall|m: int| 0 <= m < j + 1 && (#[trigger] nv[m]).d.contains(dep@) implies exists|jj: int|
                        0 <= jj < out@.len() && node_key(out@[jj]@) == node_key(nv[m]) by {
                        if m < j {
                            let jj = choose|jj: int| 0 <= jj < before.len() && node_key(before[jj]@) == node_key(nv[m]);
                            assert(out@[jj] == before[jj]);
                        } else {
                            assert(node_key(out@[before.len() as int]@) == node_key(nv[m]));
                        }
                    }
                }
            }
            j = j + 1;
        }
        proof {
            assert forall|jj: int| 0 <= jj < out@.len() implies layer_map(nv).contains_key(
                node_key(#[trigger] out@[jj]@),
            ) by {
                lemma_layer_index(nv, src[jj]);
            }
        }
        let mut j: usize = 0;
        while j < self.existing.len()
            invariant
                self.wf(),
                nv == nodes_view(self.new@),
                ev == nodes_view(self.existing@),
                j <= self.existing@.len(),
                unique_keys(nodes_view(out@)),
                forall|jj: int|
                    0 <= jj < out@.len() ==> self@.lookup(node_key(#[trigger] out@[jj]@)) == Some(out@[jj]@)
                        && out@[jj]@.d.contains(dep@),
                forall|m: int|
                    0 <= m < nv.len() && (#[trigger] nv[m]).d.contains(dep@) ==> exists|jj: int|
                        0 <= jj < out@.len() && node_key(out@[jj]@) == node_key(nv[m]),
                forall|m: int|
                    0 <= m < j && (#[trigger] ev[m]).d.contains(dep@) && !layer_map(nv).contains_key(node_key(ev[m]))
                        ==> exists|jj: int| 0 <= jj < out@.len() && node_key(out@[jj]@) == node_key(ev[m]),
                forall|jj: int|
                    0 <= jj < out@.len() ==> layer_map(nv).contains_key(node_key(#[trigger] out@[jj]@)) || exists|m: int|
                        0 <= m < j && node_key(out@[jj]@) == node_key(ev[m]),
            decreases self.existing.len() - j,
        {
            let n = &self.existing[j];
            let key = node_mangle(n);
            let shadowed = position(&self.new, &key);
            proof {
                match shadowed {
                    Some(i) => {
                        lemma_layer_index(nv, i as int);
                    },
                    None => {},
                }
            }
            if shadowed.is_none() && has_key(&n.d, &dep) {
                let c = n.duplicate();
                let ghost before = out@;
                proof {
                    lemma_layer_index(ev, j as int);
                    assert(ev[j as int] == n@);
                    if layer_map(nodes_view(before)).contains_key(node_key(c@)) {
                        lemma_layer_has(nodes_view(before), node_key(c@));
                        let jj = choose|jj: int|
                            0 <= jj < nodes_view(before).len() && node_key(nodes_view(before)[jj]) == node_key(c@);
                        assert(node_key(before[jj]@) == node_key(c@));
                        if !layer_map(nv).contains_key(node_key(before[jj]@)) {
                            let m = choose|m: int| 0 <= m < j && node_key(before[jj]@) == node_key(ev[m]);
                            assert(layer_keys(ev)[m] == layer_keys(ev)[j as int]);
                        }
                    }
                    lemma_layer_push(nodes_view(before), c@);
                }
                out.push(c);
                proof {
                    assert(nodes_view(out@) =~= nodes_view(before).push(c@));
                    assert(out@[before.len() as int] == c);
                    assert forall|jj: int| 0 <= jj < out@.len() implies layer_map(nv).contains_key(
                        node_key(#[trigger] out@[jj]@),
                    ) || exists|m: int| 0 <= m < j + 1 && node_key(out@[jj]@) == node_key(ev[m]) by {
                        if jj < before.len() {
                            assert(out@[jj] == before[jj]);
                        } else {
                            assert(node_key(out@[jj]@) == node_key(ev[j as int]));
                        }
                    }
                    assert forall|m: int| 0 <= m < nv.len() && (#[trigger] nv[m]).d.contains(dep@) implies exists|jj: int|
                        0 <= jj < out@.len() && node_key(out@[jj]@) == node_key(nv[m]) by {
                        let jj = choose|jj: int| 0 <= jj < before.len() && node_key(before[jj]@) == node_key(nv[m]);
                        assert(out@[jj] == before[jj]);
                    }
                    assert forall|m: int|
                        0 <= m < j + 1 && (#[trigger] ev[m]).d.contains(dep@) && !layer_map(nv).contains_key(node_key(ev[m]))
                        implies exists|jj: int| 0 <= jj < out@.len() && node_key(out@[jj]@) == node_key(ev[m]) by {
                        if m < j {
                            let jj = choose|jj: int| 0 <= jj < before.len() && node_key(before[jj]@) == node_key(ev[m]);
                            assert(out@[jj] == before[jj]);
                        } else {
                            assert(node_key(out@[before.len() as int]@) == node_key(ev[m]));
                        }
                    }
                }
            }
            j = j + 1;
        }
        proof {
            assert forall|k: Seq<char>|
                #[trigger] self@.lookup(k) is Some && self@.lookup(k)->0.d.contains(dep@) implies exists|jj: int|
                    0 <= jj < out@.len() && node_key(out@[jj]@) == k by {
                if layer_map(nv).contains_key(k) {
                    lemma_layer_has(nv, k);
                    let m = choose|m: int| 0 <= m < nv.len() && node_key(nv[m]) == k;
                    lemma_layer_index(nv, m);
                    assert(nv[m].d.contains(dep@));
                } else {
                    lemma_layer_has(ev, k);
                    let m = choose|m: int| 0 <= m < ev.len() && node_key(ev[m]) == k;
                    lemma_layer_index(ev, m);
                    assert(ev[m].d.contains(dep@));
                }
            }
        }
        out
    }
}

/// Records replayed in order: a later record replaces an earlier one with
/// the same key.
pub open spec fn records_map(s: Seq<NodeView>) -> Map<Seq<char>, NodeView>
    decreases s.len(),
{
    if s.len() == 0 {
        Map::empty()
    } else {
        records_map(s.drop_last()).insert(node_key(s.last()), s.last())
    }
}

/// Without repeated keys, replaying the records gives the layer they form.
pub proof fn lemma_records_layer(s: Seq<NodeView>)
    requires
        unique_keys(s),
    ensures
        records_map(s) == layer_map(s),
    decreases s.len(),
{
    if s.len() == 0 {
        assert(layer_map(s) =~= Map::<Seq<char>, NodeView>::empty());
    } else {
        let p = s.drop_last();
        assert(layer_keys(p) =~= layer_keys(s).drop_last());
        assert(unique_keys(p));
        lemma_records_layer(p);
        if layer_map(p).contains_key(node_key(s.last())) {
            lemma_layer_has(p, node_key(s.last()));
            let i = choose|i: int| 0 <= i < p.len() && node_key(p[i]) == node_key(s.last());
            assert(layer_keys(s)[i] == layer_keys(s)[s.len() - 1]);
        }
        lemma_layer_push(p, s.last());
        assert(p.push(s.last()) =~= s);
    }
}

impl Graph {
    /// A graph whose `existing` layer replays `records` in order and whose
    /// `new` layer is empty.
    pub fn read_graph(records: Vec<Node>) -> (r: Graph)
        requires
            all_wf(nodes_view(records@)),
        ensures
            r.wf(),
            r@.existing == records_map(nodes_view(records@)),
            r@.new == Map::<Seq<char>, NodeView>::empty(),
    {
        let mut existing: Vec<Node> = Vec::new();
        let ghost all = nodes_view(records@);
        let mut j: usize = 0;
        proof {
            assert(layer_map(nodes_view(existing@)) =~= Map::<Seq<char>, NodeView>::empty());
        }
        while j < records.len()
            invariant
                j <= records@.len(),
                all == nodes_view(records@),
                all_wf(all),
                unique_keys(nodes_view(existing@)),
                all_wf(nodes_view(existing@)),
                layer_map(nodes_view(existing@)) == records_map(all.subrange(0, j as int)),
            decreases records.len() - j,
        {
            let n = records[j].duplicate();
            assert(all[j as int].wf());
            let k = node_mangle(&n);
            let ghost nv = n@;
            proof {
                assert(all.subrange(0, j + 1).drop_last() =~= all.subrange(0, j as int));
                assert(all.subrange(0, j + 1).last() == nv);
            }
            match position(&existing, &k) {
                Some(i) => {
                    proof {
                        lemma_layer_update(nodes_view(existing@), i as int, nv);
                        assert(nodes_view(existing@.update(i as int, n)) =~= nodes_view(existing@).update(i as int, nv));
                    }
                    existing.set(i, n);
                },
                None => {
                    proof {
                        lemma_layer_push(nodes_view(existing@), nv);
                        assert(nodes_view(existing@.push(n)) =~= nodes_view(existing@).push(nv));
                    }
                    existing.push(n);
                },
            }
            j = j + 1;
        }
        proof {
            assert(all.subrange(0, j as int) =~= all);
        }
        let r = Graph { existing, new: Vec::new() };
        proof {
            assert(layer_map(nodes_view(r.new@)) =~= Map::<Seq<char>, NodeView>::empty());
        }
        r
    }

    /// Copies of the nodes of the `new` layer, each key once.
    pub fn write_graph(&self) -> (r: Vec<Node>)
        requires
            self.wf(),
        ensures
            unique_keys(nodes_view(r@)),
            layer_map(nodes_view(r@)) == self@.new,
    {
        let mut out: Vec<Node> = Vec::new();
        let mut j: usize = 0;
        while j < self.new.len()
            invariant
                j <= self.new@.len(),
                nodes_view(out@) == nodes_view(self.new@).subrange(0, j as int),
            decreases self.new.len() - j,
        {
            let ghost before = out@;
            out.push(self.new[j].duplicate());
            proof {
                assert(nodes_view(out@) =~= nodes_view(before).push(self.new@[j as int]@));
                assert(nodes_view(out@) =~= nodes_view(self.new@).subrange(0, j + 1));
            }
            j = j + 1;
        }
        proof {
            assert(nodes_view(out@) =~= nodes_view(self.new@));
        }
        out
    }
}

proof fn lemma_layer_len(s: Seq<NodeView>)
    requires
        unique_keys(s),
    ensures
        layer_map(s).len() == s.len(),
{
    layer_keys(s).unique_seq_to_set();
    assert(layer_map(s).dom() =~= layer_keys(s).to_set());
}

/// Extensions of the script class (`js`, `jsx`, `ts`, `tsx`) give one key
/// for the same scope and object.
pub proof fn lemma_script_extensions_share_key(scope: Seq<char>, object: Seq<char>, e1: Seq<char>, e2: Seq<char>)
    requires
        js_class(e1),
        js_class(e2),
    ensures
        mangle_spec(scope, object, Some(e1)) == mangle_spec(scope, object, Some(e2)),
{
}

/// Exporting the `new` layer of `g` and loading the records into a fresh
/// graph gives, for every exported key, the node that `g` finds under it.
pub proof fn lemma_export_reload(g: GraphView, records: Seq<NodeView>)
    requires
        unique_keys(records),
        layer_map(records) == g.new,
    ensures
        forall|k: Seq<char>|
            #[trigger] g.new.contains_key(k) ==> (GraphView {
                existing: records_map(records),
                new: Map::empty(),
            }).lookup(k) == g.lookup(k),
{
    lemma_records_layer(records);
}

} // verus!

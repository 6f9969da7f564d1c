use vstd::prelude::*;
use vstd::seq_lib::group_seq_properties;
use vstd::set_lib::lemma_map_size;
use vstd::relations::injective_on;
use crate::radix::gate::Gate;
use crate::radix::gate::GateState;
use crate::radix::header::Header;
use crate::radix::header::MAX_LABEL_LEN;
use crate::radix::block::PTR_SIZE;
use crate::radix::block::VALUE_SIZE;

verus! {

/// A trie node: its access gate, the packed header that a stored block
/// would carry, the edge label consumed since the parent, the optional
/// value, the first child, and the next sibling in the parent's chain.
pub struct Node<V> {
    gate: Gate,
    head: Header,
    size: usize,
    label: Vec<u8>,
    value: Option<V>,
    child: Option<Box<Node<V>>>,
    neighbor: Option<Box<Node<V>>>,
}

/// The map whose keys gain `p` as a prefix: `k` is mapped exactly when `m`
/// maps the rest of `k` after `p`.
pub open spec fn prefix_map<V>(p: Seq<u8>, m: Map<Seq<u8>, V>) -> Map<Seq<u8>, V> {
    Map::new(
        |k: Seq<u8>| p.is_prefix_of(k) && m.contains_key(k.skip(p.len() as int)),
        |k: Seq<u8>| m[k.skip(p.len() as int)],
    )
}

impl<V> Node<V> {
    /// Structural height, the measure for recursion over subtrees and
    /// sibling chains.
    pub closed spec fn oheight(o: Option<Box<Node<V>>>) -> nat
        decreases o,
    {
        match o {
            None => 0,
            Some(b) => 1 + vstd::math::max(
                Self::oheight(b.child) as int,
                Self::oheight(b.neighbor) as int,
            ) as nat,
        }
    }

    /// The entries of this node alone and of its subtree, keyed by the
    /// remainder after this node's label; the sibling chain is not included.
    pub closed spec fn base_map(self) -> Map<Seq<u8>, V>
        decreases self, 0int via Self::base_map_decreases
    {
        let values = if self.value is Some {
            Map::empty().insert(Seq::empty(), self.value->0)
        } else {
            Map::empty()
        };
        values.union_prefer_right(Self::chain_map(self.child))
    }

    #[via_fn]
    proof fn base_map_decreases(self) {
        assert(decreases_to!(self => self.child));
    }

    /// The entries of a whole sibling chain, keyed by the remainder after
    /// the parent's label.
    pub closed spec fn chain_map(o: Option<Box<Node<V>>>) -> Map<Seq<u8>, V>
        decreases o, 1int,
    {
        match o {
            None => Map::empty(),
            Some(b) => (*b).sub_map().union_prefer_right(Self::chain_map(b.neighbor)),
        }
    }

    /// The entries of this node, its label prefixed onto every key.
    pub closed spec fn sub_map(self) -> Map<Seq<u8>, V>
        decreases self, 1int,
    {
        prefix_map(self.label@, self.base_map())
    }

    /// Whether `c` is the first label byte of some node of the chain.
    pub closed spec fn chain_has_first(o: Option<Box<Node<V>>>, c: u8) -> bool
        decreases o,
    {
        match o {
            None => false,
            Some(b) => b.label@[0] == c || Self::chain_has_first(b.neighbor, c),
        }
    }

    /// Well-formedness of a non-root node: a short, non-empty label; a
    /// header and a stored block size that agree with the node's shape; an
    /// idle single-node gate; and a well-formed child chain.  A node that
    /// has lost both value and children may linger until it is unlinked, as
    /// removal under contention is deferred.
    pub closed spec fn wf(self) -> bool
        decreases self via Self::wf_decreases
    {
        &&& 1 <= self.label@.len() <= MAX_LABEL_LEN
        &&& self.head.spec_label_len() == self.label@.len()
        &&& self.head.spec_has_value() == self.value is Some
        &&& self.head.spec_has_child() == self.child is Some
        &&& self.head.spec_has_neighbor() == self.neighbor is Some
        &&& self.size == self.head.spec_node_size(VALUE_SIZE as int, PTR_SIZE as int)
        &&& self.gate.wf()
        &&& self.gate.state() == GateState::Idle
        &&& !self.gate.spec_bunch()
        &&& Self::chain_wf(self.child)
    }

    #[via_fn]
    proof fn wf_decreases(self) {
        assert(decreases_to!(self => self.child));
    }

    /// Well-formedness of a sibling chain: every node is well formed and no
    /// first label byte repeats further along the chain, so dispatch on the
    /// next key byte is unambiguous.
    pub closed spec fn chain_wf(o: Option<Box<Node<V>>>) -> bool
        decreases o,
    {
        match o {
            None => true,
            Some(b) => (*b).wf() && Self::chain_wf(b.neighbor) && !Self::chain_has_first(
                b.neighbor,
                b.label@[0],
            ),
        }
    }
}

proof fn lemma_prefix_map_insert<V>(p: Seq<u8>, m: Map<Seq<u8>, V>, s: Seq<u8>, v: V)
    ensures
        prefix_map(p, m.insert(s, v)) == prefix_map(p, m).insert(p + s, v),
{
    broadcast use group_seq_properties;

    assert forall|k: Seq<u8>| true implies #[trigger] prefix_map(p, m.insert(s, v)).contains_key(k)
        == prefix_map(p, m).insert(p + s, v).contains_key(k) by {
        if k == p + s {
            assert(p.is_prefix_of(k));
            assert(k.skip(p.len() as int) == s);
        } else {
            if p.is_prefix_of(k) && k.skip(p.len() as int) == s {
                assert(k == p + k.skip(p.len() as int));
            }
        }
    }
    assert(prefix_map(p, m.insert(s, v)) =~= prefix_map(p, m).insert(p + s, v)) by {
        assert forall|k: Seq<u8>| prefix_map(p, m.insert(s, v)).contains_key(k) implies prefix_map(
            p,
            m.insert(s, v),
        )[k] == prefix_map(p, m).insert(p + s, v)[k] by {
            if k == p + s {
                assert(k.skip(p.len() as int) == s);
            } else {
                if p.is_prefix_of(k) && k.skip(p.len() as int) == s {
                    assert(k == p + k.skip(p.len() as int));
                }
            }
        }
    }
}

proof fn lemma_prefix_map_remove<V>(p: Seq<u8>, m: Map<Seq<u8>, V>, s: Seq<u8>)
    ensures
        prefix_map(p, m.remove(s)) == prefix_map(p, m).remove(p + s),
{
    broadcast use group_seq_properties;

    assert(prefix_map(p, m.remove(s)) =~= prefix_map(p, m).remove(p + s)) by {
        assert forall|k: Seq<u8>| true implies #[trigger] prefix_map(p, m.remove(s)).contains_key(k)
            == prefix_map(p, m).remove(p + s).contains_key(k) by {
            if k == p + s {
                assert(k.skip(p.len() as int) == s);
            } else {
                if p.is_prefix_of(k) && k.skip(p.len() as int) == s {
                    assert(k == p + k.skip(p.len() as int));
                }
            }
        }
    }
}

proof fn lemma_prefix_map_union<V>(p: Seq<u8>, m1: Map<Seq<u8>, V>, m2: Map<Seq<u8>, V>)
    ensures
        prefix_map(p, m1.union_prefer_right(m2)) == prefix_map(p, m1).union_prefer_right(
            prefix_map(p, m2),
        ),
{
    assert(prefix_map(p, m1.union_prefer_right(m2)) =~= prefix_map(p, m1).union_prefer_right(
        prefix_map(p, m2),
    ));
}

proof fn lemma_prefix_map_compose<V>(p: Seq<u8>, q: Seq<u8>, m: Map<Seq<u8>, V>)
    ensures
        prefix_map(p, prefix_map(q, m)) == prefix_map(p + q, m),
{
    broadcast use group_seq_properties;

    let n = p.len() as int;
    let w = q.len() as int;
    assert forall|k: Seq<u8>| true implies ((p + q).is_prefix_of(k) <==> (p.is_prefix_of(k)
        && q.is_prefix_of(#[trigger] k.skip(n)))) && (k.len() >= n + w ==> k.skip(n + w) == k.skip(
        n,
    ).skip(w)) by {
        if k.len() >= n + w {
            assert(k.skip(n + w) =~= k.skip(n).skip(w));
            if (p + q).is_prefix_of(k) {
                assert(k.take(n) =~= p);
                assert(k.skip(n).take(w) =~= q) by {
                    assert forall|i: int| 0 <= i < w implies k.skip(n).take(w)[i] == q[i] by {
                        assert(k[n + i] == (p + q)[n + i]);
                    }
                }
            }
            if p.is_prefix_of(k) && q.is_prefix_of(k.skip(n)) {
                assert(k.take(n + w) =~= p + q) by {
                    assert forall|i: int| 0 <= i < n + w implies k.take(n + w)[i] == (p + q)[i] by {
                        if i < n {
                            assert(k[i] == k.take(n)[i]);
                        } else {
                            assert(k.skip(n)[i - n] == k.skip(n).take(w)[i - n]);
                        }
                    }
                }
            }
        }
    }
    assert(prefix_map(p, prefix_map(q, m)) =~= prefix_map(p + q, m));
}

proof fn lemma_prefix_map_empty_prefix<V>(m: Map<Seq<u8>, V>)
    ensures
        prefix_map(Seq::empty(), m) == m,
{
    broadcast use group_seq_properties;

    assert(prefix_map(Seq::empty(), m) =~= m) by {
        assert forall|k: Seq<u8>| true implies #[trigger] prefix_map(
            Seq::empty(),
            m,
        ).contains_key(k) == m.contains_key(k) by {
            assert(Seq::<u8>::empty().is_prefix_of(k));
            assert(k.skip(0) == k);
        }
    }
}

proof fn lemma_chain_props<V>(o: Option<Box<Node<V>>>)
    requires
        Node::chain_wf(o),
    ensures
        Node::chain_map(o).dom().finite(),
        forall|k: Seq<u8>| #[trigger] Node::chain_map(o).contains_key(k) ==> k.len() > 0
            && Node::chain_has_first(o, k[0]),
    decreases Node::oheight(o), 0int,
{
    match o {
        None => {
            assert(Node::chain_map(o) =~= Map::<Seq<u8>, V>::empty());
            assert(Node::chain_map(o).dom() =~= Set::<Seq<u8>>::empty());
        },
        Some(b) => {
            lemma_node_props(*b);
            lemma_chain_props(b.neighbor);
            vstd::set_lib::lemma_set_union_finite_iff(
                (*b).sub_map().dom(),
                Node::chain_map(b.neighbor).dom(),
            );
            assert(Node::chain_map(o).dom() =~= (*b).sub_map().dom().union(
                Node::chain_map(b.neighbor).dom(),
            ));
            assert forall|k: Seq<u8>| #[trigger] Node::chain_map(o).contains_key(k) implies k.len()
                > 0 && Node::chain_has_first(o, k[0]) by {
                if (*b).sub_map().contains_key(k) {
                    assert((*b).wf());
                    assert(k.len() >= b.label@.len());
                    assert(b.label@.len() >= 1);
                    assert(k.take(b.label@.len() as int)[0] == k[0]);
                    assert(k[0] == b.label@[0]);
                }
            }
        },
    }
}

proof fn lemma_node_props<V>(node: Node<V>)
    requires
        node.wf(),
    ensures
        node.sub_map().dom().finite(),
        forall|k: Seq<u8>| #[trigger] node.sub_map().contains_key(k) ==> k.len()
            >= node.label@.len() && k.take(node.label@.len() as int) == node.label@,
    decreases Node::oheight(node.child), 1int,
{
    lemma_chain_props(node.child);
    let values = if node.value is Some {
        Map::empty().insert(Seq::empty(), node.value->0)
    } else {
        Map::<Seq<u8>, V>::empty()
    };
    assert(values.dom().finite()) by {
        if node.value is None {
            assert(values.dom() =~= Set::<Seq<u8>>::empty());
        }
    }
    assert(node.base_map().dom().finite()) by {
        vstd::set_lib::lemma_set_union_finite_iff(
            values.dom(),
            Node::chain_map(node.child).dom(),
        );
        assert(node.base_map().dom() =~= values.dom().union(Node::chain_map(node.child).dom()));
    }
    lemma_prefix_map_finite(node.label@, node.base_map());
}

/// The two halves of a well-formed chain hold disjoint key sets: the head
/// node's keys all begin with its first label byte, which recurs nowhere
/// further along the chain.
proof fn lemma_chain_split<V>(b: Box<Node<V>>, rest: Option<Box<Node<V>>>)
    requires
        (*b).wf(),
        Node::chain_wf(rest),
        !Node::chain_has_first(rest, b.label@[0]),
    ensures
        (*b).sub_map().dom().disjoint(Node::chain_map(rest).dom()),
        forall|k: Seq<u8>|
            k.len() > 0 && k[0] == b.label@[0] ==> !Node::chain_map(rest).contains_key(k),
        forall|k: Seq<u8>|
            k.len() > 0 && k[0] != b.label@[0] ==> !(*b).sub_map().contains_key(k),
{
    lemma_node_props(*b);
    lemma_chain_props(rest);
    assert forall|k: Seq<u8>| #[trigger] (*b).sub_map().contains_key(k) implies k.len() > 0 && k[0]
        == b.label@[0] by {
        assert(k.len() >= b.label@.len());
        assert(b.label@.len() >= 1);
        assert(k.take(b.label@.len() as int)[0] == k[0]);
    }
}

proof fn lemma_prefix_map_finite<V>(p: Seq<u8>, m: Map<Seq<u8>, V>)
    requires
        m.dom().finite(),
    ensures
        prefix_map(p, m).dom().finite(),
        prefix_map(p, m).dom().len() == m.dom().len(),
{
    broadcast use group_seq_properties;

    let f = |s: Seq<u8>| p + s;
    assert(m.dom().map(f) =~= prefix_map(p, m).dom()) by {
        assert forall|k: Seq<u8>| #[trigger] prefix_map(p, m).dom().contains(k) implies m.dom().map(
            f,
        ).contains(k) by {
            let rest = k.skip(p.len() as int);
            assert(k == p + rest);
            assert(m.dom().contains(rest) && f(rest) == k);
        }
        assert forall|k: Seq<u8>| #[trigger] m.dom().map(f).contains(k) implies prefix_map(
            p,
            m,
        ).dom().contains(k) by {
            let s = choose|s: Seq<u8>| m.dom().contains(s) && f(s) == k;
            assert(p.is_prefix_of(p + s));
            assert((p + s).skip(p.len() as int) == s);
        }
    }
    assert(injective_on(f, m.dom())) by {
        assert forall|s1: Seq<u8>, s2: Seq<u8>|
            m.dom().contains(s1) && m.dom().contains(s2) && #[trigger] f(s1) == #[trigger] f(
                s2,
            ) implies s1 == s2 by {
            assert((p + s1).skip(p.len() as int) == s1);
            assert((p + s2).skip(p.len() as int) == s2);
        }
    }
    lemma_map_size(m.dom(), prefix_map(p, m).dom(), f);
}

impl<V> Node<V> {
    /// Well-formedness of the root: an empty label, no sibling, and the
    /// same header, size, gate and child-chain discipline as any node; the
    /// root alone may lack both value and children.
    pub closed spec fn wf_root(self) -> bool {
        &&& self.label@.len() == 0
        &&& self.neighbor is None
        &&& self.head.spec_label_len() == 0
        &&& self.head.spec_has_value() == self.value is Some
        &&& self.head.spec_has_child() == self.child is Some
        &&& !self.head.spec_has_neighbor()
        &&& self.size == self.head.spec_node_size(VALUE_SIZE as int, PTR_SIZE as int)
        &&& self.gate.wf()
        &&& self.gate.state() == GateState::Idle
        &&& !self.gate.spec_bunch()
        &&& Self::chain_wf(self.child)
    }

    /// The node's edge label, as a sequence.
    pub closed spec fn spec_label(self) -> Seq<u8> {
        self.label@
    }

    /// The node's stored value, if any.
    pub closed spec fn spec_value(self) -> Option<V> {
        self.value
    }

    /// The node's first child, if any.
    pub closed spec fn spec_child(self) -> Option<Box<Node<V>>> {
        self.child
    }

    /// The node's next sibling, if any.
    pub closed spec fn spec_neighbor(self) -> Option<Box<Node<V>>> {
        self.neighbor
    }

    /// The node's packed header.
    pub closed spec fn spec_header(self) -> Header {
        self.head
    }

    /// The node's exact block size in bytes.
    pub closed spec fn spec_size(self) -> int {
        self.size as int
    }

    /// The node's access gate.
    pub closed spec fn spec_gate(self) -> Gate {
        self.gate
    }

    /// The edge label consumed since this node's parent.
    pub fn label(&self) -> (r: &Vec<u8>)
        ensures
            r@ == self.spec_label(),
    {
        &self.label
    }

    /// The value stored at this node, if any.
    pub fn value(&self) -> (r: Option<&V>)
        ensures
            match r {
                Some(v) => self.spec_value() == Some(*v),
                None => self.spec_value() is None,
            },
    {
        self.value.as_ref()
    }

    /// The first child, if any.
    pub fn child(&self) -> (r: Option<&Node<V>>)
        ensures
            match r {
                Some(n) => self.spec_child() == Some(Box::new(*n)),
                None => self.spec_child() is None,
            },
    {
        match &self.child {
            Some(b) => Some(&**b),
            None => None,
        }
    }

    /// The next sibling in the parent's chain, if any.
    pub fn neighbor(&self) -> (r: Option<&Node<V>>)
        ensures
            match r {
                Some(n) => self.spec_neighbor() == Some(Box::new(*n)),
                None => self.spec_neighbor() is None,
            },
    {
        match &self.neighbor {
            Some(b) => Some(&**b),
            None => None,
        }
    }

    /// The packed header this node's block carries.
    pub fn header(&self) -> (r: Header)
        ensures
            r == self.spec_header(),
    {
        self.head
    }

    /// The exact number of bytes the node's block occupies.
    pub fn size(&self) -> (r: usize)
        ensures
            r == self.spec_size(),
    {
        self.size
    }

    /// The access gate guarding this node.
    pub fn gate(&self) -> (r: &Gate)
        ensures
            *r == self.spec_gate(),
    {
        &self.gate
    }

    /// Number of nodes in this subtree, this node included.
    pub closed spec fn spec_node_count(self) -> nat
        decreases self, 1int,
    {
        1 + Self::chain_count(self.child)
    }

    /// Number of nodes hanging off a sibling chain.
    pub closed spec fn chain_count(o: Option<Box<Node<V>>>) -> nat
        decreases o, 2int,
    {
        match o {
            None => 0,
            Some(b) => (*b).spec_node_count() + Self::chain_count(b.neighbor),
        }
    }
}

/// The compact radix trie: a root node with an empty label, and the count
/// of stored keys.  Every mutation rebuilds the touched nodes and swaps
/// them in whole, the copy-and-replace discipline of the packed layout.
/// Between operations every node's access word is idle; the exclusive
/// borrow of a mutating call stands in for the write acquisition a
/// concurrent caller would perform, and the word of a displaced or
/// unlinked node is tombstoned before its block is dropped.
pub struct Trie<V> {
    root: Node<V>,
    len: usize,
}

impl<V> Trie<V> {
    /// The key-value mapping this trie represents.
    pub closed spec fn view(self) -> Map<Seq<u8>, V> {
        self.root.sub_map()
    }

    /// The root node.
    pub closed spec fn spec_root(self) -> Node<V> {
        self.root
    }

    /// Validity: a well-formed root and an accurate key count.
    pub closed spec fn wf(self) -> bool {
        &&& self.root.wf_root()
        &&& self.view().dom().finite()
        &&& self.len == self.view().dom().len()
    }

    /// Restates the view of a well-formed trie as its root's parts: the
    /// optional value under the empty key joined with the child chain.
    proof fn lemma_view_parts(self)
        requires
            self.root.wf_root(),
        ensures
            self.view() == (if self.root.value is Some {
                Map::empty().insert(Seq::empty(), self.root.value->0)
            } else {
                Map::<Seq<u8>, V>::empty()
            }).union_prefer_right(Node::chain_map(self.root.child)),
            self.view().contains_key(Seq::empty()) == (self.root.value is Some),
            self.root.value matches Some(v) ==> self.view()[Seq::empty()] == v,
            forall|k: Seq<u8>| k.len() > 0 ==> (#[trigger] self.view().contains_key(k)
                <==> Node::chain_map(self.root.child).contains_key(k)),
            forall|k: Seq<u8>| k.len() > 0 && self.view().contains_key(k)
                ==> #[trigger] self.view()[k] == Node::chain_map(self.root.child)[k],
            self.view().dom().finite(),
    {
        lemma_chain_props(self.root.child);
        assert(self.root.label@ == Seq::<u8>::empty());
        lemma_prefix_map_empty_prefix(self.root.base_map());
        assert(self.view() == self.root.base_map());
        let values = if self.root.value is Some {
            Map::empty().insert(Seq::empty(), self.root.value->0)
        } else {
            Map::<Seq<u8>, V>::empty()
        };
        assert(self.view().dom().finite()) by {
            vstd::set_lib::lemma_set_union_finite_iff(
                values.dom(),
                Node::chain_map(self.root.child).dom(),
            );
            assert(self.view().dom() =~= values.dom().union(
                Node::chain_map(self.root.child).dom(),
            ));
        }
    }

    /// A fresh trie: a root block with an empty label and no value, and a
    /// key count of zero.
    pub fn new() -> (r: Trie<V>)
        ensures
            r.wf(),
            r.view() == Map::<Seq<u8>, V>::empty(),
    {
        let head = Header::new(false, false, false, 0);
        let size = head.calc_node_size(VALUE_SIZE, PTR_SIZE);
        let root = Node {
            gate: Gate::new(),
            head,
            size,
            label: Vec::new(),
            value: None,
            child: None,
            neighbor: None,
        };
        let r = Trie { root, len: 0 };
        proof {
            r.lemma_view_parts();
            assert(r.view() =~= Map::<Seq<u8>, V>::empty());
            assert(r.view().dom() =~= Set::<Seq<u8>>::empty());
        }
        r
    }

    /// Number of keys currently stored.
    pub fn len(&self) -> (r: usize)
        requires
            self.wf(),
        ensures
            r == self.view().dom().len(),
    {
        self.len
    }

    /// Drops every entry: the subtree is freed and the count reset.
    pub fn clear(&mut self)
        requires
            old(self).wf(),
        ensures
            final(self).wf(),
            final(self).view() == Map::<Seq<u8>, V>::empty(),
    {
        let fresh = Trie::new();
        self.root = fresh.root;
        self.len = 0;
    }

    /// A borrow of the root node.
    pub fn root(&self) -> (r: &Node<V>)
        requires
            self.wf(),
        ensures
            r.sub_map() == self.view(),
    {
        &self.root
    }

    /// Takes the trie apart, handing the root node out.
    pub fn into_root(self) -> (r: Node<V>)
        requires
            self.wf(),
        ensures
            r.sub_map() == self.view(),
    {
        self.root
    }

    /// Number of nodes the trie holds, the root included; a split that
    /// introduces one internal node raises this by exactly two for a fresh
    /// branch, and by one otherwise.
    pub fn node_count(&self) -> (r: usize)
        requires
            self.wf(),
            self.spec_root().spec_node_count() <= usize::MAX,
        ensures
            r == self.spec_root().spec_node_count(),
    {
        node_count_rec(&self.root)
    }
}

/// Whether `lab` is a prefix of `key[j..]`.
fn prefix_matches(lab: &Vec<u8>, key: &[u8], j: usize) -> (r: bool)
    requires
        j <= key@.len(),
    ensures
        r == lab@.is_prefix_of(key@.skip(j as int)),
{
    let n = key.len();
    if n - j < lab.len() {
        proof {
            assert(key@.skip(j as int).len() < lab@.len());
        }
        return false;
    }
    let mut i: usize = 0;
    while i < lab.len()
        invariant
            0 <= i <= lab@.len(),
            j + lab@.len() <= key@.len(),
            n == key@.len(),
            forall|t: int| 0 <= t < i ==> lab@[t] == key@[j + t],
        decreases lab@.len() - i,
    {
        if lab[i] != key[j + i] {
            proof {
                assert(key@.skip(j as int)[i as int] == key@[j + i]);
                assert(!(lab@ =~= key@.skip(j as int).take(lab@.len() as int)));
            }
            return false;
        }
        i = i + 1;
    }
    proof {
        assert(lab@ =~= key@.skip(j as int).take(lab@.len() as int)) by {
            assert forall|t: int| 0 <= t < lab@.len() implies lab@[t] == key@.skip(j as int).take(
                lab@.len() as int,
            )[t] by {
                assert(key@.skip(j as int)[t] == key@[j + t]);
            }
        }
    }
    true
}

/// Length of the longest common prefix of `lab` and `key[j..]`.
fn lcp_len(lab: &Vec<u8>, key: &[u8], j: usize) -> (p: usize)
    requires
        j <= key@.len(),
    ensures
        p <= lab@.len(),
        j + p <= key@.len(),
        forall|t: int| 0 <= t < p ==> lab@[t] == key@[j + t],
        p < lab@.len() && j + p < key@.len() ==> lab@[p as int] != key@[j + p],
{
    let mut p: usize = 0;
    let n = key.len();
    while p < lab.len() && j + p < n && lab[p] == key[j + p]
        invariant
            0 <= p <= lab@.len(),
            j + p <= key@.len(),
            n == key@.len(),
            forall|t: int| 0 <= t < p ==> lab@[t] == key@[j + t],
        decreases lab@.len() - p,
    {
        p = p + 1;
    }
    p
}

/// Looks `key[j..]` up in the sibling chain `o`.
fn chain_get<'a, V>(o: &'a Option<Box<Node<V>>>, key: &[u8], j: usize) -> (r: Option<&'a V>)
    requires
        Node::chain_wf(*o),
        j < key@.len(),
    ensures
        match r {
            Some(v) => Node::chain_map(*o).contains_key(key@.skip(j as int)) && *v
                == Node::chain_map(*o)[key@.skip(j as int)],
            None => !Node::chain_map(*o).contains_key(key@.skip(j as int)),
        },
    decreases Node::oheight(*o), 0int,
{
    let ghost suffix = key@.skip(j as int);
    proof {
        assert(suffix.len() > 0);
        assert(suffix[0] == key@[j as int]);
    }
    match o {
        None => None,
        Some(b) => {
            proof {
                assert((*b).wf());
                assert(1 <= b.label@.len());
                lemma_chain_split(*b, b.neighbor);
            }
            if b.label[0] == key[j] {
                let r = node_get(&**b, key, j);
                proof {
                    assert(!Node::chain_map(b.neighbor).contains_key(suffix));
                }
                r
            } else {
                let r = chain_get(&b.neighbor, key, j);
                proof {
                    assert(!(*b).sub_map().contains_key(suffix));
                }
                r
            }
        },
    }
}

/// Looks `key[j..]` up in the subtree of `node`, whose label is expected to
/// begin with `key[j]`.
fn node_get<'a, V>(node: &'a Node<V>, key: &[u8], j: usize) -> (r: Option<&'a V>)
    requires
        node.wf(),
        j < key@.len(),
    ensures
        match r {
            Some(v) => node.sub_map().contains_key(key@.skip(j as int)) && *v
                == node.sub_map()[key@.skip(j as int)],
            None => !node.sub_map().contains_key(key@.skip(j as int)),
        },
    decreases Node::oheight(node.spec_child()), 1int,
{
    let ghost suffix = key@.skip(j as int);
    let n = key.len();
    proof {
        lemma_node_props(*node);
        lemma_chain_props(node.spec_child());
    }
    if !prefix_matches(&node.label, key, j) {
        proof {
            if node.sub_map().contains_key(suffix) {
                assert(suffix.take(node.label@.len() as int) == node.label@);
                assert(node.label@.is_prefix_of(suffix));
            }
        }
        return None;
    }
    proof {
        assert(node.label@.is_prefix_of(suffix));
        assert(node.label@.len() <= suffix.len());
        assert(suffix.len() == n - j);
    }
    let j2 = j + node.label.len();
    proof {
        assert(suffix.skip(node.label@.len() as int) == key@.skip(j2 as int)) by {
            assert(suffix.skip(node.label@.len() as int) =~= key@.skip(j2 as int));
        }
        assert(node.sub_map().contains_key(suffix) == node.base_map().contains_key(
            key@.skip(j2 as int),
        ));
        assert(node.sub_map().contains_key(suffix) ==> node.sub_map()[suffix]
            == node.base_map()[key@.skip(j2 as int)]);
    }
    if j2 == key.len() {
        proof {
            assert(key@.skip(j2 as int) =~= Seq::<u8>::empty());
            assert(!Node::chain_map(node.spec_child()).contains_key(Seq::empty()));
        }
        match &node.value {
            Some(v) => Some(v),
            None => None,
        }
    } else {
        proof {
            assert(key@.skip(j2 as int).len() > 0);
            assert(node.base_map().contains_key(key@.skip(j2 as int)) == Node::chain_map(
                node.spec_child(),
            ).contains_key(key@.skip(j2 as int)));
        }
        chain_get(&node.child, key, j2)
    }
}

impl<V> Trie<V> {
    /// Inserts a key-value pair, returning the value previously stored
    /// under the key, if any.  Long keys are segmented over several edges,
    /// so no key is ever refused for its length; count goes up exactly when
    /// a fresh value slot is occupied.
    pub fn insert(&mut self, key: &[u8], value: V) -> (r: Option<V>)
        requires
            old(self).wf(),
            old(self).view().dom().len() < usize::MAX,
        ensures
            final(self).wf(),
            final(self).view() == old(self).view().insert(key@, value),
            match r {
                Some(v) => old(self).view().contains_key(key@) && v == old(self).view()[key@],
                None => !old(self).view().contains_key(key@),
            },
    {
        let ghost pre = *self;
        proof {
            pre.lemma_view_parts();
            broadcast use vstd::set::axiom_set_insert_len;

        }
        if key.len() == 0 {
            let mut tmp = Some(value);
            core::mem::swap(&mut tmp, &mut self.root.value);
            self.root.head = Header::new(true, self.root.child.is_some(), false, 0);
            self.root.size = self.root.head.calc_node_size(VALUE_SIZE, PTR_SIZE);
            if tmp.is_none() {
                self.len = self.len + 1;
            }
            proof {
                assert(key@ =~= Seq::<u8>::empty());
                assert(self.root.wf_root()) by {
                    assert(self.root.spec_child() == pre.spec_root().spec_child());
                }
                self.lemma_view_parts();
                assert(self.view() =~= pre.view().insert(key@, value));
                assert(self.view().dom() =~= pre.view().dom().insert(key@));
                assert(self.len == self.view().dom().len());
            }
            tmp
        } else {
            let c = take_opt(&mut self.root.child);
            let ghost gc = c;
            let (nc, old_value) = chain_insert(c, key, 0, value);
            self.root.child = nc;
            self.root.head = Header::new(self.root.value.is_some(), true, false, 0);
            self.root.size = self.root.head.calc_node_size(VALUE_SIZE, PTR_SIZE);
            if old_value.is_none() {
                self.len = self.len + 1;
            }
            proof {
                assert(key@.skip(0) =~= key@);
                assert(self.root.wf_root());
                self.lemma_view_parts();
                assert(self.root.spec_value() == pre.spec_root().spec_value());
                assert(self.view() =~= pre.view().insert(key@, value)) by {
                    assert(Node::chain_map(self.root.spec_child()) == Node::chain_map(gc).insert(
                        key@,
                        value,
                    ));
                }
                assert(pre.view().contains_key(key@) == Node::chain_map(gc).contains_key(key@));
                if Node::chain_map(gc).contains_key(key@) {
                    assert(pre.view()[key@] == Node::chain_map(gc)[key@]);
                }
                assert(self.view().dom() =~= pre.view().dom().insert(key@));
                assert(self.len == self.view().dom().len());
            }
            old_value
        }
    }

    /// Looks a key up, returning a borrow of its value when present.
    pub fn get<'a>(&'a self, key: &[u8]) -> (r: Option<&'a V>)
        requires
            self.wf(),
        ensures
            match r {
                Some(v) => self.view().contains_key(key@) && *v == self.view()[key@],
                None => !self.view().contains_key(key@),
            },
    {
        proof {
            self.lemma_view_parts();
        }
        if key.len() == 0 {
            proof {
                assert(key@ =~= Seq::<u8>::empty());
            }
            match &self.root.value {
                Some(v) => Some(v),
                None => None,
            }
        } else {
            let r = chain_get(&self.root.child, key, 0);
            proof {
                assert(key@.skip(0) =~= key@);
            }
            r
        }
    }
}

/// Moves the content of an optional slot out, leaving it empty.
fn take_opt<T>(o: &mut Option<T>) -> (r: Option<T>)
    ensures
        r == *old(o),
        *final(o) is None,
{
    let mut tmp: Option<T> = None;
    core::mem::swap(&mut tmp, o);
    tmp
}

/// Copies `bytes[from..to]` into a fresh vector.
fn copy_range(bytes: &[u8], from: usize, to: usize) -> (r: Vec<u8>)
    requires
        from <= to <= bytes@.len(),
    ensures
        r@ == bytes@.subrange(from as int, to as int),
{
    let mut r: Vec<u8> = Vec::new();
    let mut i: usize = from;
    while i < to
        invariant
            from <= i <= to <= bytes@.len(),
            r@.len() == i - from,
            forall|t: int| 0 <= t < r@.len() ==> r@[t] == bytes@[from + t],
        decreases to - i,
    {
        let byte = bytes[i];
        r.push(byte);
        i = i + 1;
    }
    proof {
        assert(r@ =~= bytes@.subrange(from as int, to as int));
    }
    r
}

/// Builds a fresh node, its header and block size computed from its parts.
fn make_node<V>(
    label: Vec<u8>,
    value: Option<V>,
    child: Option<Box<Node<V>>>,
    neighbor: Option<Box<Node<V>>>,
) -> (r: Node<V>)
    requires
        label@.len() <= MAX_LABEL_LEN,
    ensures
        r.spec_label() == label@,
        r.spec_value() == value,
        r.spec_child() == child,
        r.spec_neighbor() == neighbor,
        r.spec_gate().wf() && r.spec_gate().state() == GateState::Idle
            && !r.spec_gate().spec_bunch(),
        r.spec_header().spec_label_len() == label@.len(),
        r.spec_header().spec_has_value() == value is Some,
        r.spec_header().spec_has_child() == child is Some,
        r.spec_header().spec_has_neighbor() == neighbor is Some,
        r.spec_size() == r.spec_header().spec_node_size(VALUE_SIZE as int, PTR_SIZE as int),
{
    let head = Header::new(value.is_some(), child.is_some(), neighbor.is_some(),
        label.len() as u8);
    let size = head.calc_node_size(VALUE_SIZE, PTR_SIZE);
    Node { gate: Gate::new(), head, size, label, value, child, neighbor }
}

/// The singleton map holding the one entry `key[j..] -> value`.
spec fn single_entry<V>(key: Seq<u8>, j: int, value: V) -> Map<Seq<u8>, V> {
    Map::empty().insert(key.skip(j), value)
}

/// Builds the leaf (or chain of nodes, when the remainder of the key is
/// longer than one label can carry) holding `value` under `key[j..]`.
fn make_leaf<V>(key: &[u8], j: usize, value: V) -> (r: Box<Node<V>>)
    requires
        j < key@.len(),
    ensures
        (*r).wf(),
        (*r).spec_neighbor() is None,
        (*r).spec_label()[0] == key@[j as int],
        (*r).sub_map() == single_entry(key@, j as int, value),
    decreases key@.len() - j,
{
    let n = key.len();
    let remaining = n - j;
    if remaining <= MAX_LABEL_LEN as usize {
        let label = copy_range(key, j, n);
        let node = make_node(label, Some(value), None, None);
        proof {
            assert(Node::chain_map(None::<Box<Node<V>>>) =~= Map::<Seq<u8>, V>::empty());
            let values = Map::empty().insert(Seq::<u8>::empty(), value);
            assert(node.base_map() =~= values);
            lemma_prefix_map_insert(node.spec_label(), Map::empty(), Seq::empty(), value);
            assert(prefix_map(node.spec_label(), Map::<Seq<u8>, V>::empty()) =~= Map::<
                Seq<u8>,
                V,
            >::empty());
            assert(node.spec_label() + Seq::<u8>::empty() =~= node.spec_label());
            assert(node.spec_label() =~= key@.skip(j as int));
            assert(node.sub_map() == single_entry(key@, j as int, value));
            assert(Node::chain_wf(None::<Box<Node<V>>>));
            assert(node.wf());
        }
        Box::new(node)
    } else {
        let cut = j + MAX_LABEL_LEN as usize;
        let label = copy_range(key, j, cut);
        let tail = make_leaf(key, cut, value);
        let ghost gtail = tail;
        let node = make_node(label, None, Some(tail), None);
        proof {
            let lab = node.spec_label();
            let rest = key@.skip(cut as int);
            assert(node.spec_child() == Some(gtail));
            assert(Node::chain_map(None::<Box<Node<V>>>) =~= Map::<Seq<u8>, V>::empty());
            assert((*gtail).sub_map() == single_entry(key@, cut as int, value));
            assert(Node::chain_map(Some(gtail)) =~= single_entry(key@, cut as int, value));
            assert(node.base_map() =~= single_entry(key@, cut as int, value));
            lemma_prefix_map_insert(lab, Map::empty(), rest, value);
            assert(prefix_map(lab, Map::<Seq<u8>, V>::empty()) =~= Map::<Seq<u8>, V>::empty());
            assert(lab + rest =~= key@.skip(j as int));
            assert(node.sub_map() == single_entry(key@, j as int, value));
            assert(node.spec_label()[0] == key@[j as int]);
            assert(Node::chain_wf(Some(gtail))) by {
                assert((*gtail).wf());
                assert(Node::chain_wf(None::<Box<Node<V>>>));
                assert(!Node::chain_has_first(None::<Box<Node<V>>>, (*gtail).spec_label()[0]));
            }
            assert(node.wf());
        }
        Box::new(node)
    }
}

/// Inserts `key[j..]` into the sibling chain `o`, rebuilding the touched
/// nodes and returning the new chain beside the value displaced by the
/// insertion, if one was.
fn chain_insert<V>(o: Option<Box<Node<V>>>, key: &[u8], j: usize, value: V) -> (r: (
    Option<Box<Node<V>>>,
    Option<V>,
))
    requires
        Node::chain_wf(o),
        j < key@.len(),
    ensures
        Node::chain_wf(r.0),
        r.0 is Some,
        Node::chain_map(r.0) == Node::chain_map(o).insert(key@.skip(j as int), value),
        match r.1 {
            Some(v) => Node::chain_map(o).contains_key(key@.skip(j as int)) && v == Node::chain_map(
                o,
            )[key@.skip(j as int)],
            None => !Node::chain_map(o).contains_key(key@.skip(j as int)),
        },
        forall|c: u8| #[trigger] Node::chain_has_first(r.0, c) <==> (Node::chain_has_first(o, c)
            || c == key@[j as int]),
    decreases Node::oheight(o), 0int,
{
    let ghost suffix = key@.skip(j as int);
    proof {
        assert(suffix.len() > 0);
        assert(suffix[0] == key@[j as int]);
        lemma_chain_props(o);
    }
    match o {
        None => {
            let leaf = make_leaf(key, j, value);
            let ghost gleaf = leaf;
            let res: Option<Box<Node<V>>> = Some(leaf);
            proof {
                assert(res == Some(gleaf));
                assert(Node::chain_map(None::<Box<Node<V>>>) =~= Map::<Seq<u8>, V>::empty());
                assert(Node::chain_map(res) =~= Node::chain_map(None::<Box<Node<V>>>).insert(
                    suffix,
                    value,
                ));
                assert(Node::chain_wf(res)) by {
                    assert((*gleaf).wf());
                    assert(Node::chain_wf(None::<Box<Node<V>>>));
                    assert(!Node::chain_has_first(None::<Box<Node<V>>>, (*gleaf).spec_label()[0]));
                }
                assert forall|c: u8| #[trigger] Node::chain_has_first(res, c) <==> (
                Node::chain_has_first(None::<Box<Node<V>>>, c) || c == key@[j as int]) by {
                    assert((*gleaf).spec_label()[0] == key@[j as int]);
                    assert(!Node::chain_has_first(None::<Box<Node<V>>>, c));
                }
            }
            (res, None)
        },
        Some(b) => {
            proof {
                assert((*b).wf());
                lemma_chain_split(b, b.spec_neighbor());
            }
            let node = *b;
            if node.label[0] == key[j] {
                let ghost pre = node;
                let (nn, old) = node_insert(node, key, j, value);
                let ghost gnn = nn;
                let res: Option<Box<Node<V>>> = Some(Box::new(nn));
                proof {
                    assert(res == Some(pre_box(gnn)));
                    assert(Node::chain_map(res) =~= Node::chain_map(Some(pre_box(pre))).insert(
                        suffix,
                        value,
                    )) by {
                        assert(!Node::chain_map(pre.spec_neighbor()).contains_key(suffix));
                    }
                    assert(Node::chain_wf(res)) by {
                        assert(gnn.wf());
                        assert(Node::chain_wf(gnn.spec_neighbor())) by {
                            assert(gnn.spec_neighbor() == pre.spec_neighbor());
                        }
                        assert(!Node::chain_has_first(gnn.spec_neighbor(), gnn.spec_label()[0]))
                            by {
                            assert(gnn.spec_label()[0] == key@[j as int]);
                            assert(pre.spec_label()[0] == key@[j as int]);
                        }
                    }
                    assert forall|c: u8| #[trigger] Node::chain_has_first(res, c) <==> (
                    Node::chain_has_first(Some(pre_box(pre)), c) || c == key@[j as int]) by {
                        assert(gnn.spec_label()[0] == key@[j as int]);
                        assert(pre.spec_label()[0] == key@[j as int]);
                        assert(Node::chain_has_first(gnn.spec_neighbor(), c)
                            == Node::chain_has_first(pre.spec_neighbor(), c));
                    }
                }
                (res, old)
            } else {
                let mut node = node;
                let ghost pre = node;
                let rest = take_opt(&mut node.neighbor);
                let ghost grest = rest;
                let (nrest, old) = chain_insert(rest, key, j, value);
                node.neighbor = nrest;
                node.head = Header::new(node.value.is_some(), node.child.is_some(),
                    node.neighbor.is_some(), node.label.len() as u8);
                node.size = node.head.calc_node_size(VALUE_SIZE, PTR_SIZE);
                let ghost gnode = node;
                let res: Option<Box<Node<V>>> = Some(Box::new(node));
                proof {
                    assert(res == Some(pre_box(gnode)));
                    assert(gnode.sub_map() == pre.sub_map());
                    assert(gnode.base_map() == pre.base_map());
                    assert(!pre.sub_map().contains_key(suffix));
                    assert(Node::chain_map(res) =~= Node::chain_map(Some(pre_box(pre))).insert(
                        suffix,
                        value,
                    ));
                    assert(Node::chain_wf(res)) by {
                        assert(pre.wf());
                        assert(gnode.wf()) by {
                            assert(Node::chain_wf(gnode.spec_child())) by {
                                assert(gnode.spec_child() == pre.spec_child());
                            }
                        }
                        assert(!Node::chain_has_first(gnode.spec_neighbor(), gnode.spec_label()[0]))
                            by {
                            assert(gnode.spec_label()[0] == pre.spec_label()[0]);
                            assert(pre.spec_label()[0] != key@[j as int]);
                            assert(!Node::chain_has_first(grest, pre.spec_label()[0]));
                        }
                    }
                    assert forall|c: u8| #[trigger] Node::chain_has_first(res, c) <==> (
                    Node::chain_has_first(Some(pre_box(pre)), c) || c == key@[j as int]) by {
                        assert(Node::chain_has_first(gnode.spec_neighbor(), c) <==> (
                        Node::chain_has_first(grest, c) || c == key@[j as int]));
                        assert(gnode.spec_label()[0] == pre.spec_label()[0]);
                    }
                }
                (res, old)
            }
        },
    }
}

/// The box a node came out of, for spec-level reassembly.
spec fn pre_box<V>(node: Node<V>) -> Box<Node<V>> {
    Box::new(node)
}

/// Inserts `key[j..]` into the subtree of `node`, whose label begins with
/// `key[j]`.  An exact hit replaces the value in place; a partial label
/// match splits the edge; a fully consumed label descends into the child
/// chain.  The rebuilt node keeps its first label byte and its sibling.
fn node_insert<V>(node: Node<V>, key: &[u8], j: usize, value: V) -> (r: (Node<V>, Option<V>))
    requires
        node.wf(),
        j < key@.len(),
        node.spec_label()[0] == key@[j as int],
    ensures
        r.0.wf(),
        r.0.sub_map() == node.sub_map().insert(key@.skip(j as int), value),
        r.0.spec_label()[0] == key@[j as int],
        r.0.spec_neighbor() == node.spec_neighbor(),
        match r.1 {
            Some(v) => node.sub_map().contains_key(key@.skip(j as int)) && v == node.sub_map()[
                key@.skip(j as int)
            ],
            None => !node.sub_map().contains_key(key@.skip(j as int)),
        },
    decreases Node::oheight(node.spec_child()), 1int,
{
    let ghost suffix = key@.skip(j as int);
    let n = key.len();
    proof {
        lemma_node_props(node);
        lemma_chain_props(node.spec_child());
    }
    let p = lcp_len(&node.label, key, j);
    proof {
        if p == 0 {
            assert(node.spec_label()[0] != key@[j as int]);
        }
        assert(p >= 1);
    }
    if p == node.label.len() {
        let j2 = j + p;
        let ghost lab = node.spec_label();
        proof {
            assert(lab.is_prefix_of(suffix)) by {
                assert(lab =~= suffix.take(lab.len() as int));
            }
            assert(suffix.skip(lab.len() as int) =~= key@.skip(j2 as int));
            assert(lab + key@.skip(j2 as int) =~= suffix);
        }
        if j2 == n {
            // Exact node hit: replace the value through copy-and-replace.
            let mut node = node;
            let ghost pre = node;
            let mut tmp = Some(value);
            core::mem::swap(&mut tmp, &mut node.value);
            node.head = Header::new(true, node.child.is_some(), node.neighbor.is_some(),
                node.label.len() as u8);
            node.size = node.head.calc_node_size(VALUE_SIZE, PTR_SIZE);
            proof {
                assert(key@.skip(j2 as int) =~= Seq::<u8>::empty());
                assert(suffix =~= lab);
                let values_pre = if pre.spec_value() is Some {
                    Map::empty().insert(Seq::<u8>::empty(), pre.spec_value()->0)
                } else {
                    Map::<Seq<u8>, V>::empty()
                };
                assert(node.base_map() =~= pre.base_map().insert(Seq::empty(), value));
                lemma_prefix_map_insert(lab, pre.base_map(), Seq::empty(), value);
                assert(lab + Seq::<u8>::empty() =~= lab);
                assert(node.sub_map() == pre.sub_map().insert(suffix, value));
                // the displaced value is the one the base map held at the
                // empty remainder
                assert(pre.sub_map().contains_key(suffix) == pre.base_map().contains_key(
                    Seq::empty(),
                ));
                assert(!Node::chain_map(pre.spec_child()).contains_key(Seq::empty()));
                assert(pre.base_map().contains_key(Seq::empty()) == (pre.spec_value() is Some));
                if pre.spec_value() is Some {
                    assert(pre.base_map()[Seq::empty()] == pre.spec_value()->0);
                    assert(pre.sub_map()[suffix] == pre.base_map()[Seq::empty()]);
                }
            }
            (node, tmp)
        } else {
            // Label fully consumed: descend into the child chain.
            let mut node = node;
            let ghost pre = node;
            let c = take_opt(&mut node.child);
            let (nc, old) = chain_insert(c, key, j2, value);
            node.child = nc;
            node.head = Header::new(node.value.is_some(), true, node.neighbor.is_some(),
                node.label.len() as u8);
            node.size = node.head.calc_node_size(VALUE_SIZE, PTR_SIZE);
            proof {
                let rest = key@.skip(j2 as int);
                assert(rest.len() > 0);
                assert(node.base_map() =~= pre.base_map().insert(rest, value));
                lemma_prefix_map_insert(lab, pre.base_map(), rest, value);
                assert(node.sub_map() == pre.sub_map().insert(suffix, value));
                assert(pre.sub_map().contains_key(suffix) == pre.base_map().contains_key(rest));
                assert(pre.base_map().contains_key(rest) == Node::chain_map(
                    pre.spec_child(),
                ).contains_key(rest));
                if Node::chain_map(pre.spec_child()).contains_key(rest) {
                    assert(pre.base_map()[rest] == Node::chain_map(pre.spec_child())[rest]);
                    assert(pre.sub_map()[suffix] == pre.base_map()[rest]);
                }
            }
            (node, old)
        }
    } else {
        // Prefix split: the new internal node takes the shared prefix; the
        // displaced node is rebuilt with the rest of its old label, and the
        // old block's gate is tombstoned before the block is dropped.
        let j2 = j + p;
        let ghost pre = node;
        let Node { mut gate, head: _, size: _, label, value: node_value, child, neighbor } = node;
        let _ = gate.remove();
        let label_pre = copy_range(label.as_slice(), 0, p);
        let label_rest = copy_range(label.as_slice(), p, label.len());
        let ghost lab = label@;
        let ghost l_pre = lab.subrange(0, p as int);
        let ghost l_rest = lab.subrange(p as int, lab.len() as int);
        proof {
            assert(l_pre + l_rest =~= lab);
            assert(!lab.is_prefix_of(suffix)) by {
                if lab.is_prefix_of(suffix) {
                    if p < suffix.len() {
                        assert(suffix[p as int] == key@[j + p]);
                        assert(lab[p as int] == suffix[p as int]);
                    } else {
                        assert(lab.len() <= suffix.len());
                    }
                }
            }
            assert(!pre.sub_map().contains_key(suffix)) by {
                if pre.sub_map().contains_key(suffix) {
                    assert(suffix.take(lab.len() as int) == lab);
                }
            }
        }
        let rebuilt = make_node(label_rest, node_value, child, None);
        proof {
            assert(rebuilt.base_map() == pre.base_map());
            assert(rebuilt.sub_map() == prefix_map(l_rest, pre.base_map()));
            lemma_prefix_map_compose(l_pre, l_rest, pre.base_map());
            assert(prefix_map(l_pre, rebuilt.sub_map()) == pre.sub_map());
            assert(rebuilt.wf());
        }
        if j2 == n {
            // The key is exactly the shared prefix: the internal node
            // carries the new value.
            let ghost grebuilt = rebuilt;
            let internal = make_node(label_pre, Some(value), Some(Box::new(rebuilt)), neighbor);
            proof {
                let rebuilt = grebuilt;
                assert(suffix =~= l_pre);
                assert(internal.spec_child() == Some(pre_box(rebuilt)));
                assert(Node::chain_map(None::<Box<Node<V>>>) =~= Map::<Seq<u8>, V>::empty());
                assert(Node::chain_map(Some(pre_box(rebuilt))) =~= rebuilt.sub_map());
                assert(internal.base_map() =~= rebuilt.sub_map().insert(Seq::empty(), value)) by {
                    lemma_node_props(rebuilt);
                    assert(!rebuilt.sub_map().contains_key(Seq::<u8>::empty()));
                }
                lemma_prefix_map_insert(l_pre, rebuilt.sub_map(), Seq::empty(), value);
                assert(l_pre + Seq::<u8>::empty() =~= l_pre);
                assert(internal.sub_map() == pre.sub_map().insert(suffix, value));
                assert(internal.wf()) by {
                    assert(Node::chain_wf(Some(pre_box(rebuilt)))) by {
                        assert(rebuilt.wf());
                        assert(Node::chain_wf(None::<Box<Node<V>>>));
                        assert(!Node::chain_has_first(
                            None::<Box<Node<V>>>,
                            rebuilt.spec_label()[0],
                        ));
                    }
                }
                assert(internal.spec_label()[0] == key@[j as int]);
            }
            (internal, None)
        } else {
            // The key continues past the split: a second branch holds it.
            let leaf = make_leaf(key, j2, value);
            let ghost gleaf = leaf;
            let mut rebuilt = rebuilt;
            rebuilt.neighbor = Some(leaf);
            rebuilt.head = Header::new(rebuilt.value.is_some(), rebuilt.child.is_some(), true,
                rebuilt.label.len() as u8);
            rebuilt.size = rebuilt.head.calc_node_size(VALUE_SIZE, PTR_SIZE);
            let ghost grebuilt = rebuilt;
            let internal = make_node(label_pre, None, Some(Box::new(rebuilt)), neighbor);
            proof {
                let rebuilt = grebuilt;
                let rest = key@.skip(j2 as int);
                assert(pre.wf());
                assert(Node::chain_wf(pre.spec_child()));
                assert(Node::chain_map(None::<Box<Node<V>>>) =~= Map::<Seq<u8>, V>::empty());
                assert(rebuilt.sub_map() == prefix_map(l_rest, pre.base_map()));
                assert(rebuilt.wf());
                assert(rebuilt.spec_label()[0] == lab[p as int]);
                assert(rest[0] == key@[j + p]);
                assert(lab[p as int] != key@[j + p]);
                assert((*gleaf).sub_map() == single_entry(key@, j2 as int, value));
                assert(Node::chain_map(Some(gleaf)) =~= single_entry(key@, j2 as int, value));
                assert(internal.spec_child() == Some(pre_box(rebuilt)));
                assert(rebuilt.spec_neighbor() == Some(gleaf));
                assert(Node::chain_map(Some(pre_box(rebuilt))) =~= rebuilt.sub_map(
                ).union_prefer_right(single_entry(key@, j2 as int, value)));
                assert(internal.base_map() =~= rebuilt.sub_map().union_prefer_right(
                    single_entry(key@, j2 as int, value),
                ));
                lemma_prefix_map_union(l_pre, rebuilt.sub_map(), single_entry(key@, j2 as int, value));
                lemma_prefix_map_insert(l_pre, Map::empty(), rest, value);
                assert(prefix_map(l_pre, Map::<Seq<u8>, V>::empty()) =~= Map::<Seq<u8>, V>::empty());
                assert(l_pre + rest =~= suffix);
                assert(prefix_map(l_pre, single_entry(key@, j2 as int, value)) =~= Map::<
                    Seq<u8>,
                    V,
                >::empty().insert(suffix, value));
                assert(internal.sub_map() =~= pre.sub_map().insert(suffix, value));
                assert(internal.wf()) by {
                    assert(Node::chain_wf(Some(pre_box(rebuilt)))) by {
                        assert(Node::chain_wf(Some(gleaf))) by {
                            assert((*gleaf).wf());
                            assert(Node::chain_wf(None::<Box<Node<V>>>));
                            assert(!Node::chain_has_first(
                                None::<Box<Node<V>>>,
                                (*gleaf).spec_label()[0],
                            ));
                        }
                        assert(!Node::chain_has_first(Some(gleaf), rebuilt.spec_label()[0])) by {
                            assert((*gleaf).spec_label()[0] == key@[j2 as int]);
                            assert(key@[j2 as int] == key@[j + p]);
                            assert(rebuilt.spec_label()[0] == lab[p as int]);
                            assert(lab[p as int] != key@[j + p]);
                            assert(!Node::chain_has_first(
                                None::<Box<Node<V>>>,
                                rebuilt.spec_label()[0],
                            ));
                        }
                        assert(rebuilt.wf());
                    }
                }
                assert(internal.spec_label()[0] == key@[j as int]);
            }
            (internal, None)
        }
    }
}

/// Removes `key[j..]` from the sibling chain `o`, handing back the new
/// chain and the detached value, if one was stored there.
fn chain_remove<V>(o: Option<Box<Node<V>>>, key: &[u8], j: usize) -> (r: (
    Option<Box<Node<V>>>,
    Option<V>,
))
    requires
        Node::chain_wf(o),
        j < key@.len(),
    ensures
        Node::chain_wf(r.0),
        Node::chain_map(r.0) == Node::chain_map(o).remove(key@.skip(j as int)),
        match r.1 {
            Some(v) => Node::chain_map(o).contains_key(key@.skip(j as int)) && v == Node::chain_map(
                o,
            )[key@.skip(j as int)],
            None => !Node::chain_map(o).contains_key(key@.skip(j as int)),
        },
        forall|c: u8| #[trigger] Node::chain_has_first(r.0, c) ==> Node::chain_has_first(o, c),
    decreases Node::oheight(o), 0int,
{
    let ghost suffix = key@.skip(j as int);
    proof {
        assert(suffix.len() > 0);
        assert(suffix[0] == key@[j as int]);
        lemma_chain_props(o);
    }
    match o {
        None => {
            proof {
                assert(Node::chain_map(None::<Box<Node<V>>>) =~= Map::<Seq<u8>, V>::empty());
                assert(Node::chain_map(None::<Box<Node<V>>>) =~= Node::chain_map(
                    None::<Box<Node<V>>>,
                ).remove(suffix));
            }
            (None, None)
        },
        Some(b) => {
            proof {
                assert((*b).wf());
                lemma_chain_split(b, b.spec_neighbor());
            }
            let node = *b;
            if node.label[0] == key[j] {
                let ghost pre = node;
                let (rep, old_value) = node_remove(node, key, j);
                proof {
                    assert(Node::chain_map(rep) =~= Node::chain_map(Some(pre_box(pre))).remove(
                        suffix,
                    ));
                }
                (rep, old_value)
            } else {
                let mut node = node;
                let ghost pre = node;
                let rest = take_opt(&mut node.neighbor);
                let ghost grest = rest;
                let (nrest, old_value) = chain_remove(rest, key, j);
                node.neighbor = nrest;
                node.head = Header::new(node.value.is_some(), node.child.is_some(),
                    node.neighbor.is_some(), node.label.len() as u8);
                node.size = node.head.calc_node_size(VALUE_SIZE, PTR_SIZE);
                let ghost gnode = node;
                let res: Option<Box<Node<V>>> = Some(Box::new(node));
                proof {
                    assert(res == Some(pre_box(gnode)));
                    assert(gnode.sub_map() == pre.sub_map());
                    assert(gnode.base_map() == pre.base_map());
                    assert(!pre.sub_map().contains_key(suffix));
                    assert(Node::chain_map(res) =~= Node::chain_map(Some(pre_box(pre))).remove(
                        suffix,
                    ));
                    assert(Node::chain_wf(res)) by {
                        assert(pre.wf());
                        assert(gnode.wf()) by {
                            assert(Node::chain_wf(gnode.spec_child())) by {
                                assert(gnode.spec_child() == pre.spec_child());
                            }
                        }
                        assert(!Node::chain_has_first(gnode.spec_neighbor(), gnode.spec_label()[0]))
                            by {
                            assert(gnode.spec_label()[0] == pre.spec_label()[0]);
                            assert(!Node::chain_has_first(grest, pre.spec_label()[0]));
                        }
                    }
                    assert forall|c: u8| #[trigger] Node::chain_has_first(res, c) implies
                        Node::chain_has_first(Some(pre_box(pre)), c) by {
                        assert(gnode.spec_label()[0] == pre.spec_label()[0]);
                        if Node::chain_has_first(gnode.spec_neighbor(), c) {
                            assert(Node::chain_has_first(grest, c));
                        }
                    }
                }
                (res, old_value)
            }
        },
    }
}

/// Removes `key[j..]` from the subtree of `node`, whose label begins with
/// `key[j]`.  The result stands in the node's chain position: the rebuilt
/// node, or its sibling where the node held the key alone and could be
/// unlinked at once (its gate is tombstoned before the block is dropped).
fn node_remove<V>(node: Node<V>, key: &[u8], j: usize) -> (r: (Option<Box<Node<V>>>, Option<V>))
    requires
        node.wf(),
        Node::chain_wf(node.spec_neighbor()),
        !Node::chain_has_first(node.spec_neighbor(), node.spec_label()[0]),
        j < key@.len(),
        node.spec_label()[0] == key@[j as int],
    ensures
        Node::chain_wf(r.0),
        Node::chain_map(r.0) == Node::chain_map(Some(pre_box(node))).remove(key@.skip(j as int)),
        match r.1 {
            Some(v) => node.sub_map().contains_key(key@.skip(j as int)) && v == node.sub_map()[
                key@.skip(j as int)
            ],
            None => !node.sub_map().contains_key(key@.skip(j as int)),
        },
        forall|c: u8| #[trigger] Node::chain_has_first(r.0, c) ==> Node::chain_has_first(
            Some(pre_box(node)),
            c,
        ),
    decreases Node::oheight(node.spec_child()), 1int,
{
    let ghost suffix = key@.skip(j as int);
    let ghost pre = node;
    let n = key.len();
    proof {
        lemma_node_props(node);
        lemma_chain_props(node.spec_child());
        lemma_chain_props(node.spec_neighbor());
        lemma_chain_split(pre_box(pre), pre.spec_neighbor());
    }
    if !prefix_matches(&node.label, key, j) {
        proof {
            if pre.sub_map().contains_key(suffix) {
                assert(suffix.take(pre.spec_label().len() as int) == pre.spec_label());
                assert(pre.spec_label().is_prefix_of(suffix));
            }
        }
        let res: Option<Box<Node<V>>> = Some(Box::new(node));
        proof {
            assert(res == Some(pre_box(pre)));
            assert(Node::chain_map(res) =~= Node::chain_map(Some(pre_box(pre))).remove(suffix));
        }
        return (res, None);
    }
    let ghost lab = node.spec_label();
    proof {
        assert(lab.is_prefix_of(suffix));
        assert(lab.len() <= suffix.len());
        assert(suffix.len() == n - j);
    }
    let j2 = j + node.label.len();
    proof {
        assert(suffix.skip(lab.len() as int) =~= key@.skip(j2 as int));
        assert(lab + key@.skip(j2 as int) =~= suffix);
    }
    if j2 == n {
        // The key ends exactly at this node.
        proof {
            assert(key@.skip(j2 as int) =~= Seq::<u8>::empty());
            assert(suffix =~= lab);
            assert(pre.sub_map().contains_key(suffix) == pre.base_map().contains_key(Seq::empty()));
            assert(!Node::chain_map(pre.spec_child()).contains_key(Seq::empty()));
        }
        if node.value.is_none() {
            // Nothing stored here: the trie is unchanged.
            let res: Option<Box<Node<V>>> = Some(Box::new(node));
            proof {
                assert(res == Some(pre_box(pre)));
                assert(!pre.sub_map().contains_key(suffix));
                assert(Node::chain_map(res) =~= Node::chain_map(Some(pre_box(pre))).remove(
                    suffix,
                ));
            }
            return (res, None);
        }
        let mut node = node;
        let mut tmp: Option<V> = None;
        core::mem::swap(&mut tmp, &mut node.value);
        proof {
            assert(pre.base_map()[Seq::empty()] == pre.spec_value()->0);
            assert(pre.sub_map()[suffix] == pre.base_map()[Seq::empty()]);
        }
        if node.child.is_none() {
            // The node held this key alone: unlink it and tombstone its
            // gate; ownership of the block ends here.
            let Node { mut gate, head: _, size: _, label: _, value: _, child: _, neighbor } = node;
            let _ = gate.remove();
            proof {
                assert(Node::chain_map(None::<Box<Node<V>>>) =~= Map::<Seq<u8>, V>::empty());
                assert(pre.base_map() =~= Map::empty().insert(Seq::<u8>::empty(), pre.spec_value()->0));
                lemma_prefix_map_insert(lab, Map::empty(), Seq::empty(), pre.spec_value()->0);
                assert(prefix_map(lab, Map::<Seq<u8>, V>::empty()) =~= Map::<Seq<u8>, V>::empty());
                assert(lab + Seq::<u8>::empty() =~= lab);
                assert(pre.sub_map() =~= Map::empty().insert(lab, pre.spec_value()->0));
                assert(Node::chain_map(neighbor) =~= Node::chain_map(Some(pre_box(pre))).remove(
                    suffix,
                ));
            }
            return (neighbor, tmp);
        }
        node.head = Header::new(false, true, node.neighbor.is_some(), node.label.len() as u8);
        node.size = node.head.calc_node_size(VALUE_SIZE, PTR_SIZE);
        let ghost gnode = node;
        let res: Option<Box<Node<V>>> = Some(Box::new(node));
        proof {
            assert(res == Some(pre_box(gnode)));
            assert(gnode.base_map() =~= pre.base_map().remove(Seq::empty()));
            lemma_prefix_map_remove(lab, pre.base_map(), Seq::empty());
            assert(lab + Seq::<u8>::empty() =~= lab);
            assert(gnode.sub_map() == pre.sub_map().remove(suffix));
            assert(gnode.wf()) by {
                assert(Node::chain_wf(gnode.spec_child())) by {
                    assert(gnode.spec_child() == pre.spec_child());
                }
            }
            assert(Node::chain_map(res) =~= Node::chain_map(Some(pre_box(pre))).remove(suffix));
            assert(Node::chain_wf(res));
            assert forall|c: u8| #[trigger] Node::chain_has_first(res, c) implies
                Node::chain_has_first(Some(pre_box(pre)), c) by {
                assert(gnode.spec_label()[0] == pre.spec_label()[0]);
            }
        }
        (res, tmp)
    } else {
        // Descend into the child chain.
        let mut node = node;
        let c = take_opt(&mut node.child);
        let ghost gc = c;
        if c.is_none() {
            node.child = c;
            let res: Option<Box<Node<V>>> = Some(Box::new(node));
            proof {
                let rest = key@.skip(j2 as int);
                assert(res == Some(pre_box(pre)));
                assert(rest.len() > 0);
                assert(Node::chain_map(None::<Box<Node<V>>>) =~= Map::<Seq<u8>, V>::empty());
                assert(!pre.base_map().contains_key(rest));
                assert(!pre.sub_map().contains_key(suffix));
                assert(Node::chain_map(res) =~= Node::chain_map(Some(pre_box(pre))).remove(
                    suffix,
                ));
            }
            return (res, None);
        }
        let (ncd, old_value) = chain_remove(c, key, j2);
        node.child = ncd;
        node.head = Header::new(node.value.is_some(), node.child.is_some(),
            node.neighbor.is_some(), node.label.len() as u8);
        node.size = node.head.calc_node_size(VALUE_SIZE, PTR_SIZE);
        let ghost gnode = node;
        let res: Option<Box<Node<V>>> = Some(Box::new(node));
        proof {
            let rest = key@.skip(j2 as int);
            assert(rest.len() > 0);
            assert(res == Some(pre_box(gnode)));
            assert(gnode.base_map() =~= pre.base_map().remove(rest)) by {
                assert(Node::chain_map(gnode.spec_child()) == Node::chain_map(gc).remove(rest));
            }
            lemma_prefix_map_remove(lab, pre.base_map(), rest);
            assert(gnode.sub_map() == pre.sub_map().remove(suffix));
            assert(pre.sub_map().contains_key(suffix) == pre.base_map().contains_key(rest));
            assert(pre.base_map().contains_key(rest) == Node::chain_map(gc).contains_key(rest));
            if Node::chain_map(gc).contains_key(rest) {
                assert(pre.base_map()[rest] == Node::chain_map(gc)[rest]);
                assert(pre.sub_map()[suffix] == pre.base_map()[rest]);
            }
            assert(gnode.wf()) by {
                assert(Node::chain_wf(gnode.spec_child()));
            }
            assert(Node::chain_map(res) =~= Node::chain_map(Some(pre_box(pre))).remove(suffix));
            assert(Node::chain_wf(res));
            assert forall|c0: u8| #[trigger] Node::chain_has_first(res, c0) implies
                Node::chain_has_first(Some(pre_box(pre)), c0) by {
                assert(gnode.spec_label()[0] == pre.spec_label()[0]);
                assert(gnode.spec_neighbor() == pre.spec_neighbor());
            }
        }
        (res, old_value)
    }
}

impl<V> Trie<V> {
    /// Removes a key, returning the value that was stored under it; an
    /// absent key leaves the trie unchanged and its count untouched.
    pub fn remove(&mut self, key: &[u8]) -> (r: Option<V>)
        requires
            old(self).wf(),
        ensures
            final(self).wf(),
            final(self).view() == old(self).view().remove(key@),
            r is None ==> final(self).view() == old(self).view(),
            match r {
                Some(v) => old(self).view().contains_key(key@) && v == old(self).view()[key@],
                None => !old(self).view().contains_key(key@),
            },
    {
        let ghost pre = *self;
        proof {
            pre.lemma_view_parts();
            broadcast use vstd::set::axiom_set_remove_len;

        }
        if key.len() == 0 {
            let mut tmp: Option<V> = None;
            core::mem::swap(&mut tmp, &mut self.root.value);
            self.root.head = Header::new(false, self.root.child.is_some(), false, 0);
            self.root.size = self.root.head.calc_node_size(VALUE_SIZE, PTR_SIZE);
            if tmp.is_some() {
                proof {
                    assert(pre.view().contains_key(Seq::<u8>::empty()));
                    vstd::set_lib::lemma_set_empty_equivalency_len(pre.view().dom());
                    assert(pre.view().dom().len() > 0);
                }
                self.len = self.len - 1;
            }
            proof {
                assert(key@ =~= Seq::<u8>::empty());
                assert(self.root.wf_root()) by {
                    assert(self.root.spec_child() == pre.spec_root().spec_child());
                }
                self.lemma_view_parts();
                assert(self.view() =~= pre.view().remove(key@));
                assert(self.view().dom() =~= pre.view().dom().remove(key@));
                if pre.spec_root().spec_value() is None {
                    assert(self.view() =~= pre.view());
                }
                assert(self.len == self.view().dom().len());
            }
            tmp
        } else {
            let c = take_opt(&mut self.root.child);
            let ghost gc = c;
            let (nc, old_value) = chain_remove(c, key, 0);
            self.root.child = nc;
            self.root.head = Header::new(self.root.value.is_some(), self.root.child.is_some(),
                false, 0);
            self.root.size = self.root.head.calc_node_size(VALUE_SIZE, PTR_SIZE);
            if old_value.is_some() {
                proof {
                    assert(key@.skip(0) =~= key@);
                    assert(Node::chain_map(gc).contains_key(key@));
                    assert(pre.view().contains_key(key@));
                    vstd::set_lib::lemma_set_empty_equivalency_len(pre.view().dom());
                    assert(pre.view().dom().len() > 0);
                }
                self.len = self.len - 1;
            }
            proof {
                assert(key@.skip(0) =~= key@);
                assert(self.root.wf_root());
                self.lemma_view_parts();
                assert(self.root.spec_value() == pre.spec_root().spec_value());
                assert(self.view() =~= pre.view().remove(key@)) by {
                    assert(Node::chain_map(self.root.spec_child()) == Node::chain_map(gc).remove(
                        key@,
                    ));
                }
                assert(pre.view().contains_key(key@) == Node::chain_map(gc).contains_key(key@));
                if Node::chain_map(gc).contains_key(key@) {
                    assert(pre.view()[key@] == Node::chain_map(gc)[key@]);
                }
                if old_value is None {
                    assert(self.view() =~= pre.view());
                }
                assert(self.view().dom() =~= pre.view().dom().remove(key@));
                assert(self.len == self.view().dom().len());
            }
            old_value
        }
    }
}

/// Finds the node that the descent for `key[j..]` ends at in the chain
/// `o`, whether or not that node carries a value.
fn chain_find<'a, V>(o: &'a Option<Box<Node<V>>>, key: &[u8], j: usize) -> (r: Option<&'a Node<V>>)
    requires
        Node::chain_wf(*o),
        j < key@.len(),
    ensures
        match r {
            Some(nd) => (match nd.spec_value() {
                Some(v) => Node::chain_map(*o).contains_key(key@.skip(j as int))
                    && Node::chain_map(*o)[key@.skip(j as int)] == v,
                None => !Node::chain_map(*o).contains_key(key@.skip(j as int)),
            }),
            None => !Node::chain_map(*o).contains_key(key@.skip(j as int)),
        },
    decreases Node::oheight(*o), 0int,
{
    let ghost suffix = key@.skip(j as int);
    proof {
        assert(suffix.len() > 0);
        assert(suffix[0] == key@[j as int]);
    }
    match o {
        None => None,
        Some(b) => {
            proof {
                assert((*b).wf());
                assert(1 <= b.label@.len());
                lemma_chain_split(*b, b.spec_neighbor());
            }
            if b.label[0] == key[j] {
                let r = node_find(&**b, key, j);
                proof {
                    assert(!Node::chain_map(b.spec_neighbor()).contains_key(suffix));
                }
                r
            } else {
                let r = chain_find(&b.neighbor, key, j);
                proof {
                    assert(!(*b).sub_map().contains_key(suffix));
                }
                r
            }
        },
    }
}

/// Finds the node at `key[j..]` within the subtree of `node`.
fn node_find<'a, V>(node: &'a Node<V>, key: &[u8], j: usize) -> (r: Option<&'a Node<V>>)
    requires
        node.wf(),
        j < key@.len(),
    ensures
        match r {
            Some(nd) => (match nd.spec_value() {
                Some(v) => node.sub_map().contains_key(key@.skip(j as int)) && node.sub_map()[
                    key@.skip(j as int)
                ] == v,
                None => !node.sub_map().contains_key(key@.skip(j as int)),
            }),
            None => !node.sub_map().contains_key(key@.skip(j as int)),
        },
    decreases Node::oheight(node.spec_child()), 1int,
{
    let ghost suffix = key@.skip(j as int);
    let n = key.len();
    proof {
        lemma_node_props(*node);
        lemma_chain_props(node.spec_child());
    }
    if !prefix_matches(&node.label, key, j) {
        proof {
            if node.sub_map().contains_key(suffix) {
                assert(suffix.take(node.label@.len() as int) == node.label@);
                assert(node.label@.is_prefix_of(suffix));
            }
        }
        return None;
    }
    proof {
        assert(node.label@.is_prefix_of(suffix));
        assert(node.label@.len() <= suffix.len());
        assert(suffix.len() == n - j);
    }
    let j2 = j + node.label.len();
    proof {
        assert(suffix.skip(node.label@.len() as int) =~= key@.skip(j2 as int));
        assert(node.sub_map().contains_key(suffix) == node.base_map().contains_key(
            key@.skip(j2 as int),
        ));
        assert(node.sub_map().contains_key(suffix) ==> node.sub_map()[suffix]
            == node.base_map()[key@.skip(j2 as int)]);
    }
    if j2 == key.len() {
        proof {
            assert(key@.skip(j2 as int) =~= Seq::<u8>::empty());
            assert(!Node::chain_map(node.spec_child()).contains_key(Seq::empty()));
        }
        Some(node)
    } else {
        proof {
            assert(key@.skip(j2 as int).len() > 0);
            assert(node.base_map().contains_key(key@.skip(j2 as int)) == Node::chain_map(
                node.spec_child(),
            ).contains_key(key@.skip(j2 as int)));
        }
        chain_find(&node.child, key, j2)
    }
}

impl<V> Trie<V> {
    /// Finds the node a key's descent ends at, if the whole key is
    /// consumed on an existing path; the node found may or may not carry a
    /// value, and when it does, that value is the one stored under the key.
    pub fn find<'a>(&'a self, key: &[u8]) -> (r: Option<&'a Node<V>>)
        requires
            self.wf(),
        ensures
            match r {
                Some(nd) => (match nd.spec_value() {
                    Some(v) => self.view().contains_key(key@) && self.view()[key@] == v,
                    None => !self.view().contains_key(key@),
                }),
                None => !self.view().contains_key(key@),
            },
    {
        proof {
            self.lemma_view_parts();
        }
        if key.len() == 0 {
            proof {
                assert(key@ =~= Seq::<u8>::empty());
            }
            Some(&self.root)
        } else {
            let r = chain_find(&self.root.child, key, 0);
            proof {
                assert(key@.skip(0) =~= key@);
            }
            r
        }
    }
}

/// No key occurs twice among the pairs.
pub open spec fn unique_keys<V>(pairs: Seq<(Seq<u8>, V)>) -> bool {
    forall|i: int, j: int| 0 <= i < j < pairs.len() ==> (#[trigger] pairs[i]).0 != (
    #[trigger] pairs[j]).0
}

/// The map after inserting the pairs one by one, first to last.
pub open spec fn insert_all<V>(m: Map<Seq<u8>, V>, pairs: Seq<(Seq<u8>, V)>) -> Map<Seq<u8>, V>
    decreases pairs.len(),
{
    if pairs.len() == 0 {
        m
    } else {
        insert_all(m.insert(pairs[0].0, pairs[0].1), pairs.skip(1))
    }
}

proof fn lemma_insert_all_props<V>(m: Map<Seq<u8>, V>, pairs: Seq<(Seq<u8>, V)>)
    requires
        unique_keys(pairs),
        m.dom().finite(),
        forall|i: int| 0 <= i < pairs.len() ==> !m.contains_key((#[trigger] pairs[i]).0),
    ensures
        insert_all(m, pairs).dom().finite(),
        insert_all(m, pairs).dom().len() == m.dom().len() + pairs.len(),
        forall|i: int| 0 <= i < pairs.len() ==> insert_all(m, pairs).contains_key(
            (#[trigger] pairs[i]).0,
        ) && insert_all(m, pairs)[pairs[i].0] == pairs[i].1,
        forall|k: Seq<u8>| #[trigger] insert_all(m, pairs).contains_key(k) <==> (m.contains_key(k)
            || exists|i: int| 0 <= i < pairs.len() && (#[trigger] pairs[i]).0 == k),
        forall|k: Seq<u8>| m.contains_key(k) ==> insert_all(m, pairs).contains_key(k)
            && #[trigger] insert_all(m, pairs)[k] == m[k],
    decreases pairs.len(),
{
    broadcast use vstd::set::axiom_set_insert_len;

    if pairs.len() == 0 {
    } else {
        let head = pairs[0];
        let rest = pairs.skip(1);
        let m1 = m.insert(head.0, head.1);
        assert(forall|i: int| 0 <= i < rest.len() ==> #[trigger] rest[i] == pairs[i + 1]);
        assert(unique_keys(rest));
        assert(forall|i: int| 0 <= i < rest.len() ==> !m1.contains_key((#[trigger] rest[i]).0));
        lemma_insert_all_props(m1, rest);
        assert(m1.dom() == m.dom().insert(head.0));
        assert forall|i: int| 0 <= i < pairs.len() implies insert_all(m, pairs).contains_key(
            (#[trigger] pairs[i]).0,
        ) && insert_all(m, pairs)[pairs[i].0] == pairs[i].1 by {
            if i == 0 {
                assert(m1.contains_key(head.0) && m1[head.0] == head.1);
            } else {
                assert(rest[i - 1] == pairs[i]);
            }
        }
        assert forall|k: Seq<u8>| #[trigger] insert_all(m, pairs).contains_key(k) implies (
        m.contains_key(k) || exists|i: int| 0 <= i < pairs.len() && (#[trigger] pairs[i]).0
            == k) by {
            if m1.contains_key(k) && !m.contains_key(k) && k != head.0 {
            }
            if !m1.contains_key(k) {
                let i = choose|i: int| 0 <= i < rest.len() && (#[trigger] rest[i]).0 == k;
                assert(pairs[i + 1].0 == k);
            } else {
                if !m.contains_key(k) {
                    assert(pairs[0].0 == k);
                }
            }
        }
        assert forall|k: Seq<u8>| (m.contains_key(k) || exists|i: int|
            0 <= i < pairs.len() && (#[trigger] pairs[i]).0 == k) implies #[trigger] insert_all(
            m,
            pairs,
        ).contains_key(k) by {
            if !m.contains_key(k) {
                let i = choose|i: int| 0 <= i < pairs.len() && (#[trigger] pairs[i]).0 == k;
                if i == 0 {
                    assert(m1.contains_key(k));
                } else {
                    assert(rest[i - 1].0 == k);
                }
            }
        }
    }
}

/// Inserting any finite collection of pairs with unique keys, in the order
/// given, builds a map in which every one of the keys is mapped to its own
/// value, and whose size is exactly the number of pairs.
pub proof fn lemma_insert_all_unique_keys<V>(pairs: Seq<(Seq<u8>, V)>)
    requires
        unique_keys(pairs),
    ensures
        insert_all(Map::empty(), pairs).dom().finite(),
        insert_all(Map::empty(), pairs).dom().len() == pairs.len(),
        forall|i: int| 0 <= i < pairs.len() ==> insert_all(Map::empty(), pairs).contains_key(
            (#[trigger] pairs[i]).0,
        ) && insert_all(Map::empty(), pairs)[pairs[i].0] == pairs[i].1,
{
    assert(Map::<Seq<u8>, V>::empty().dom() =~= Set::empty());
    lemma_insert_all_props(Map::empty(), pairs);
}

/// The final map does not depend on the order of insertion: two sequences
/// of pairs with unique keys that hold the same pairs build the same map.
pub proof fn lemma_insert_all_order_independent<V>(
    pairs1: Seq<(Seq<u8>, V)>,
    pairs2: Seq<(Seq<u8>, V)>,
)
    requires
        unique_keys(pairs1),
        unique_keys(pairs2),
        forall|x: (Seq<u8>, V)| pairs1.contains(x) <==> pairs2.contains(x),
    ensures
        insert_all(Map::empty(), pairs1) == insert_all(Map::empty(), pairs2),
{
    assert(Map::<Seq<u8>, V>::empty().dom() =~= Set::empty());
    lemma_insert_all_props(Map::empty(), pairs1);
    lemma_insert_all_props(Map::empty(), pairs2);
    let m1 = insert_all(Map::empty(), pairs1);
    let m2 = insert_all(Map::empty(), pairs2);
    assert forall|k: Seq<u8>| true implies #[trigger] m1.contains_key(k) == m2.contains_key(k)
        && (m1.contains_key(k) ==> m1[k] == m2[k]) by {
        if m1.contains_key(k) {
            let i = choose|i: int| 0 <= i < pairs1.len() && (#[trigger] pairs1[i]).0 == k;
            assert(pairs1.contains(pairs1[i]));
            assert(pairs2.contains(pairs1[i]));
            let j = choose|j: int| 0 <= j < pairs2.len() && pairs2[j] == pairs1[i];
            assert(m2.contains_key(k) && m2[k] == pairs2[j].1);
        }
        if m2.contains_key(k) {
            let i = choose|i: int| 0 <= i < pairs2.len() && (#[trigger] pairs2[i]).0 == k;
            assert(pairs2.contains(pairs2[i]));
            assert(pairs1.contains(pairs2[i]));
            let j = choose|j: int| 0 <= j < pairs1.len() && pairs1[j] == pairs2[i];
            assert(m1.contains_key(k));
        }
    }
    assert(m1 =~= m2);
}

/// Inserting a key and then removing it at once: the removal hands back
/// exactly the value just inserted, afterwards the key maps to nothing, and
/// the count drops by exactly one relative to the map after the insertion.
pub proof fn lemma_insert_then_remove<V>(m: Map<Seq<u8>, V>, k: Seq<u8>, v: V)
    requires
        m.dom().finite(),
    ensures
        m.insert(k, v).contains_key(k) && m.insert(k, v)[k] == v,
        m.insert(k, v).remove(k) == m.remove(k),
        !m.insert(k, v).remove(k).contains_key(k),
        m.insert(k, v).remove(k).dom().len() == m.insert(k, v).dom().len() - 1,
{
    broadcast use vstd::set::axiom_set_insert_len;
    broadcast use vstd::set::axiom_set_remove_len;

    assert(m.insert(k, v).remove(k) =~= m.remove(k));
    assert(m.insert(k, v).dom() == m.dom().insert(k));
    assert(m.insert(k, v).remove(k).dom() == m.dom().insert(k).remove(k));
}

/// Counts the nodes of a subtree.
fn node_count_rec<V>(node: &Node<V>) -> (r: usize)
    requires
        node.spec_node_count() <= usize::MAX,
    ensures
        r == node.spec_node_count(),
    decreases Node::oheight(node.child), 1int,
{
    proof {
        assert(node.spec_node_count() == 1 + Node::chain_count(node.child));
    }
    1 + chain_count_rec(&node.child)
}

/// Counts the nodes of a sibling chain.
fn chain_count_rec<V>(o: &Option<Box<Node<V>>>) -> (r: usize)
    requires
        Node::chain_count(*o) <= usize::MAX - 1,
    ensures
        r == Node::chain_count(*o),
    decreases Node::oheight(*o), 0int,
{
    match o {
        None => 0,
        Some(b) => {
            let own = node_count_rec(&**b);
            let rest = chain_count_rec(&b.neighbor);
            own + rest
        },
    }
}

} // verus!

//! The adaptive octree: particles, nodes, insertion and range search.
//!
//! A tree pairs a box with a node; a node is either a leaf holding one
//! particle or a branch holding eight optional children, one per octant
//! of the box. The model of a tree is the sequence of its particles in
//! depth-first, octant-ascending order.

use vstd::prelude::*;

use crate::geom::Bound;
use crate::geom::Vec3;
use crate::geom::oct_bound;
use crate::geom::width_sum;
use crate::geom::lemma_in_bound_overlap;
use crate::geom::lemma_oct_bound_proper;
use crate::geom::lemma_oct_bound_subset;
use crate::geom::lemma_octant_of_point;
use crate::geom::lemma_octant_width;
use crate::geom::subdivision_index;
use vstd::multiset::Multiset;
use vstd::seq_lib::lemma_multiset_commutative;

verus! {

/// A point particle. The tree reads only `position`; the identifier and
/// the smoothing length (stored as the raw bits the driver chose) are
/// opaque payload.
#[derive(Debug, Clone, Copy, PartialEq, Eq, Structural)]
pub struct Particle {
    pub id: u64,
    pub position: Vec3,
    pub kernel_h: u64,
}

/// The eight optional children of a branch, indexed by octant code.
struct Octants {
    c0: Option<Box<Tree>>,
    c1: Option<Box<Tree>>,
    c2: Option<Box<Tree>>,
    c3: Option<Box<Tree>>,
    c4: Option<Box<Tree>>,
    c5: Option<Box<Tree>>,
    c6: Option<Box<Tree>>,
    c7: Option<Box<Tree>>,
}

/// A node: a branch of eight optional subtrees, or a leaf holding one
/// particle.
enum Node {
    Branch(Octants),
    Leaf(Particle),
}

/// A subtree: the box it covers, fixed at creation, and its node.
pub struct Tree {
    bound: Bound,
    data: Node,
}

/// The particles of an optional subtree, in depth-first order.
spec fn opt_particles(o: Option<Box<Tree>>) -> Seq<Particle>
    decreases o,
{
    match o {
        Option::None => Seq::empty(),
        Option::Some(t) => t.particles(),
    }
}

/// The particles under a node, children in ascending octant order.
spec fn node_particles(n: Node) -> Seq<Particle>
    decreases n,
{
    match n {
        Node::Leaf(p) => seq![p],
        Node::Branch(ch) => opt_particles(ch.c0) + opt_particles(ch.c1) + opt_particles(ch.c2)
            + opt_particles(ch.c3) + opt_particles(ch.c4) + opt_particles(ch.c5) + opt_particles(
            ch.c6,
        ) + opt_particles(ch.c7),
    }
}

/// Well-formedness of the child in octant `k` of a box: absent, or a
/// non-empty well-formed subtree covering exactly that octant's sub-box.
spec fn slot_wf(o: Option<Box<Tree>>, parent: Bound, k: int) -> bool
    decreases o,
{
    match o {
        Option::None => true,
        Option::Some(t) => t.spec_bound() == oct_bound(parent, k) && t.wf() && t.particles().len()
            >= 1,
    }
}

/// Well-formedness of a node covering box `b`: a leaf's particle lies in
/// `b`; a branch's children are each well-formed for their octant.
spec fn node_wf(n: Node, b: Bound) -> bool
    decreases n,
{
    match n {
        Node::Leaf(p) => b.spec_in_bound(p.position),
        Node::Branch(ch) => slot_wf(ch.c0, b, 0) && slot_wf(ch.c1, b, 1) && slot_wf(ch.c2, b, 2)
            && slot_wf(ch.c3, b, 3) && slot_wf(ch.c4, b, 4) && slot_wf(ch.c5, b, 5) && slot_wf(
            ch.c6,
            b,
            6,
        ) && slot_wf(ch.c7, b, 7),
    }
}

/// The rank of a node: used as the tie-breaker of the insertion measure,
/// since splitting a leaf re-inserts into the same box.
spec fn node_rank(n: Node) -> int {
    match n {
        Node::Leaf(_) => 1,
        Node::Branch(_) => 0,
    }
}

/// The query predicate: the particle's position lies in the query box.
pub open spec fn hits(q: Bound) -> spec_fn(Particle) -> bool {
    |p: Particle| q.spec_in_bound(p.position)
}

impl Tree {
    /// The box this subtree covers.
    pub closed spec fn spec_bound(self) -> Bound {
        self.bound
    }

    /// The model: all particles of the subtree, in depth-first,
    /// octant-ascending order.
    pub closed spec fn particles(self) -> Seq<Particle>
        decreases self,
    {
        node_particles(self.data)
    }

    /// The tree invariant: the box is normal on every axis, every leaf's
    /// particle lies in its leaf's box, and every child covers exactly
    /// its octant of its parent's box and is itself well-formed and
    /// non-empty.
    pub closed spec fn wf(self) -> bool
        decreases self,
    {
        self.bound.spec_proper() && node_wf(self.data, self.bound)
    }

    /// What a range query over box `q` finds: the particles whose
    /// positions `q` contains, in the model's order.
    pub open spec fn found(self, q: Bound) -> Seq<Particle> {
        self.particles().filter(hits(q))
    }

    /// The tie-breaker of the insertion measure: splitting a leaf
    /// re-inserts into the same box, but into a branch.
    pub closed spec fn rank(self) -> int {
        node_rank(self.data)
    }

    /// An empty tree covering `bound`.
    pub fn new(bound: Bound) -> (t: Tree)
        requires
            bound.spec_proper(),
        ensures
            t.wf(),
            t.spec_bound() == bound,
            t.particles() == Seq::<Particle>::empty(),
    {
        let t = Tree { bound, data: Node::Branch(empty_octants()) };
        proof {
            assert(t.particles() =~= Seq::<Particle>::empty());
        }
        t
    }
}

/// Every particle of the sequence has its position inside the box.
pub open spec fn all_within(s: Seq<Particle>, b: Bound) -> bool {
    forall|i: int| 0 <= i < s.len() ==> b.spec_in_bound((#[trigger] s[i]).position)
}

proof fn lemma_all_within_concat(a: Seq<Particle>, b: Seq<Particle>, bd: Bound)
    requires
        all_within(a, bd),
        all_within(b, bd),
    ensures
        all_within(a + b, bd),
{
    assert forall|i: int| 0 <= i < (a + b).len() implies bd.spec_in_bound(
        (#[trigger] (a + b)[i]).position,
    ) by {
        if i < a.len() {
            assert((a + b)[i] == a[i]);
        } else {
            assert((a + b)[i] == b[i - a.len()]);
        }
    }
}

proof fn lemma_filter_empty<A>(pred: spec_fn(A) -> bool)
    ensures
        Seq::<A>::empty().filter(pred) == Seq::<A>::empty(),
{
    reveal(Seq::filter);
}

proof fn lemma_filter_singleton<A>(p: A, pred: spec_fn(A) -> bool)
    ensures
        seq![p].filter(pred) == if pred(p) {
            seq![p]
        } else {
            Seq::<A>::empty()
        },
{
    reveal(Seq::filter);
    let s = seq![p];
    assert(s.drop_last() =~= Seq::<A>::empty());
    lemma_filter_empty(pred);
    assert(s.last() == p);
    if pred(p) {
        assert(s.filter(pred) =~= s);
    } else {
        assert(s.filter(pred) =~= Seq::<A>::empty());
    }
}

proof fn lemma_filter_all_fail<A>(s: Seq<A>, pred: spec_fn(A) -> bool)
    requires
        forall|i: int| 0 <= i < s.len() ==> !pred(#[trigger] s[i]),
    ensures
        s.filter(pred) == Seq::<A>::empty(),
    decreases s.len(),
{
    reveal(Seq::filter);
    if s.len() == 0 {
        assert(s.filter(pred) =~= Seq::<A>::empty());
    } else {
        let dl = s.drop_last();
        assert(forall|i: int| 0 <= i < dl.len() ==> dl[i] == s[i]);
        lemma_filter_all_fail(dl, pred);
        assert(!pred(s.last()));
        assert(s.filter(pred) =~= Seq::<A>::empty());
    }
}

proof fn lemma_filter_all_pass<A>(s: Seq<A>, pred: spec_fn(A) -> bool)
    requires
        forall|i: int| 0 <= i < s.len() ==> pred(#[trigger] s[i]),
    ensures
        s.filter(pred) == s,
    decreases s.len(),
{
    reveal(Seq::filter);
    if s.len() == 0 {
        assert(s.filter(pred) =~= s);
    } else {
        let dl = s.drop_last();
        assert(forall|i: int| 0 <= i < dl.len() ==> dl[i] == s[i]);
        lemma_filter_all_pass(dl, pred);
        assert(pred(s.last()));
        assert(s.filter(pred) =~= s);
    }
}

/// Each particle of an octant's subtree lies within the parent box.
proof fn lemma_slot_particles_within(o: Option<Box<Tree>>, b: Bound, k: int)
    requires
        b.spec_proper(),
        slot_wf(o, b, k),
    ensures
        all_within(opt_particles(o), b),
    decreases o,
{
    match o {
        Option::None => {},
        Option::Some(t) => {
            lemma_particles_within(*t);
            assert forall|i: int| 0 <= i < opt_particles(o).len() implies b.spec_in_bound(
                (#[trigger] opt_particles(o)[i]).position,
            ) by {
                lemma_oct_bound_subset(b, k, opt_particles(o)[i].position);
            }
        },
    }
}

/// Every particle of a well-formed tree lies within the tree's box.
pub proof fn lemma_particles_within(t: Tree)
    requires
        t.wf(),
    ensures
        all_within(t.particles(), t.spec_bound()),
    decreases t,
{
    match t.data {
        Node::Leaf(p) => {},
        Node::Branch(ch) => {
            lemma_slot_particles_within(ch.c0, t.bound, 0);
            lemma_slot_particles_within(ch.c1, t.bound, 1);
            lemma_slot_particles_within(ch.c2, t.bound, 2);
            lemma_slot_particles_within(ch.c3, t.bound, 3);
            lemma_slot_particles_within(ch.c4, t.bound, 4);
            lemma_slot_particles_within(ch.c5, t.bound, 5);
            lemma_slot_particles_within(ch.c6, t.bound, 6);
            lemma_slot_particles_within(ch.c7, t.bound, 7);
            let s0 = opt_particles(ch.c0);
            let s1 = opt_particles(ch.c1);
            let s2 = opt_particles(ch.c2);
            let s3 = opt_particles(ch.c3);
            let s4 = opt_particles(ch.c4);
            let s5 = opt_particles(ch.c5);
            let s6 = opt_particles(ch.c6);
            let s7 = opt_particles(ch.c7);
            lemma_all_within_concat(s0, s1, t.bound);
            lemma_all_within_concat(s0 + s1, s2, t.bound);
            lemma_all_within_concat(s0 + s1 + s2, s3, t.bound);
            lemma_all_within_concat(s0 + s1 + s2 + s3, s4, t.bound);
            lemma_all_within_concat(s0 + s1 + s2 + s3 + s4, s5, t.bound);
            lemma_all_within_concat(s0 + s1 + s2 + s3 + s4 + s5, s6, t.bound);
            lemma_all_within_concat(s0 + s1 + s2 + s3 + s4 + s5 + s6, s7, t.bound);
        },
    }
}

/// Well-formedness of an optional subtree on its own.
spec fn opt_wf(o: Option<Box<Tree>>) -> bool {
    match o {
        Option::None => true,
        Option::Some(t) => t.wf(),
    }
}

/// Appends to `out` the particles of the optional subtree that the query
/// box contains.
fn search_slot(o: &Option<Box<Tree>>, search_bound: &Bound, out: &mut Vec<Particle>)
    requires
        opt_wf(*o),
    ensures
        final(out)@ == old(out)@ + opt_particles(*o).filter(hits(*search_bound)),
    decreases o,
{
    match o {
        Option::None => {
            proof {
                lemma_filter_empty(hits(*search_bound));
                assert(out@ =~= old(out)@ + opt_particles(*o).filter(hits(*search_bound)));
            }
        },
        Option::Some(t) => {
            let mut r = t.search(search_bound);
            out.append(&mut r);
        },
    }
}

impl Tree {
    /// All particles of the tree whose positions the query box contains,
    /// in depth-first, octant-ascending order. A subtree whose box does
    /// not overlap the query box is pruned whole.
    pub fn search(&self, search_bound: &Bound) -> (r: Vec<Particle>)
        requires
            self.wf(),
        ensures
            r@ == self.found(*search_bound),
        decreases self,
    {
        match &self.data {
            Node::Leaf(particle) => {
                proof {
                    lemma_filter_singleton(*particle, hits(*search_bound));
                }
                if search_bound.is_in_bound(&particle.position) {
                    let mut r: Vec<Particle> = Vec::new();
                    r.push(*particle);
                    proof {
                        assert(r@ =~= self.found(*search_bound));
                    }
                    r
                } else {
                    let r: Vec<Particle> = Vec::new();
                    proof {
                        assert(r@ =~= self.found(*search_bound));
                    }
                    r
                }
            },
            Node::Branch(ch) => {
                if self.bound.is_overlap(search_bound) {
                    let mut out: Vec<Particle> = Vec::new();
                    search_slot(&ch.c0, search_bound, &mut out);
                    search_slot(&ch.c1, search_bound, &mut out);
                    search_slot(&ch.c2, search_bound, &mut out);
                    search_slot(&ch.c3, search_bound, &mut out);
                    search_slot(&ch.c4, search_bound, &mut out);
                    search_slot(&ch.c5, search_bound, &mut out);
                    search_slot(&ch.c6, search_bound, &mut out);
                    search_slot(&ch.c7, search_bound, &mut out);
                    proof {
                        let pred = hits(*search_bound);
                        let s0 = opt_particles(ch.c0);
                        let s1 = opt_particles(ch.c1);
                        let s2 = opt_particles(ch.c2);
                        let s3 = opt_particles(ch.c3);
                        let s4 = opt_particles(ch.c4);
                        let s5 = opt_particles(ch.c5);
                        let s6 = opt_particles(ch.c6);
                        let s7 = opt_particles(ch.c7);
                        Seq::filter_distributes_over_add(s0, s1, pred);
                        Seq::filter_distributes_over_add(s0 + s1, s2, pred);
                        Seq::filter_distributes_over_add(s0 + s1 + s2, s3, pred);
                        Seq::filter_distributes_over_add(s0 + s1 + s2 + s3, s4, pred);
                        Seq::filter_distributes_over_add(s0 + s1 + s2 + s3 + s4, s5, pred);
                        Seq::filter_distributes_over_add(s0 + s1 + s2 + s3 + s4 + s5, s6, pred);
                        Seq::filter_distributes_over_add(s0 + s1 + s2 + s3 + s4 + s5 + s6, s7, pred);
                        assert(out@ =~= self.found(*search_bound));
                    }
                    out
                } else {
                    proof {
                        lemma_particles_within(*self);
                        let pred = hits(*search_bound);
                        assert forall|i: int| 0 <= i < self.particles().len() implies !pred(
                            #[trigger] self.particles()[i],
                        ) by {
                            if pred(self.particles()[i]) {
                                lemma_in_bound_overlap(
                                    self.bound,
                                    *search_bound,
                                    self.particles()[i].position,
                                );
                            }
                        }
                        lemma_filter_all_fail(self.particles(), pred);
                    }
                    let r: Vec<Particle> = Vec::new();
                    proof {
                        assert(r@ =~= self.found(*search_bound));
                    }
                    r
                }
            },
        }
    }
}

impl Octants {
    /// The child in octant `k`.
    spec fn slot(self, k: int) -> Option<Box<Tree>> {
        if k == 0 {
            self.c0
        } else if k == 1 {
            self.c1
        } else if k == 2 {
            self.c2
        } else if k == 3 {
            self.c3
        } else if k == 4 {
            self.c4
        } else if k == 5 {
            self.c5
        } else if k == 6 {
            self.c6
        } else {
            self.c7
        }
    }
}

proof fn lemma_add_contains(a: Seq<Particle>, b: Seq<Particle>)
    ensures
        forall|x: Particle| a.contains(x) ==> #[trigger] (a + b).contains(x),
        forall|x: Particle| b.contains(x) ==> #[trigger] (a + b).contains(x),
{
    assert forall|x: Particle| a.contains(x) implies #[trigger] (a + b).contains(x) by {
        let i = choose|i: int| 0 <= i < a.len() && a[i] == x;
        assert((a + b)[i] == x);
    }
    assert forall|x: Particle| b.contains(x) implies #[trigger] (a + b).contains(x) by {
        let i = choose|i: int| 0 <= i < b.len() && b[i] == x;
        assert((a + b)[a.len() + i] == x);
    }
}

/// A particle found under any single octant is found under the branch.
proof fn lemma_branch_contains(ch: Octants)
    ensures
        forall|x: Particle|
            opt_particles(ch.c0).contains(x) || opt_particles(ch.c1).contains(x) || opt_particles(
                ch.c2,
            ).contains(x) || opt_particles(ch.c3).contains(x) || opt_particles(ch.c4).contains(x)
                || opt_particles(ch.c5).contains(x) || opt_particles(ch.c6).contains(x)
                || opt_particles(ch.c7).contains(x) ==> #[trigger] node_particles(
                Node::Branch(ch),
            ).contains(x),
{
    let s0 = opt_particles(ch.c0);
    let s1 = opt_particles(ch.c1);
    let s2 = opt_particles(ch.c2);
    let s3 = opt_particles(ch.c3);
    let s4 = opt_particles(ch.c4);
    let s5 = opt_particles(ch.c5);
    let s6 = opt_particles(ch.c6);
    let s7 = opt_particles(ch.c7);
    lemma_add_contains(s0, s1);
    lemma_add_contains(s0 + s1, s2);
    lemma_add_contains(s0 + s1 + s2, s3);
    lemma_add_contains(s0 + s1 + s2 + s3, s4);
    lemma_add_contains(s0 + s1 + s2 + s3 + s4, s5);
    lemma_add_contains(s0 + s1 + s2 + s3 + s4 + s5, s6);
    lemma_add_contains(s0 + s1 + s2 + s3 + s4 + s5 + s6, s7);
    assert forall|x: Particle|
        s0.contains(x) || s1.contains(x) || s2.contains(x) || s3.contains(x) || s4.contains(x)
            || s5.contains(x) || s6.contains(x) || s7.contains(x) implies #[trigger] node_particles(
        Node::Branch(ch),
    ).contains(x) by {
        assert(s0 + s1 + s2 + s3 + s4 + s5 + s6 + s7 == node_particles(Node::Branch(ch)));
        if s0.contains(x) || s1.contains(x) {
            assert((s0 + s1).contains(x));
        }
        if (s0 + s1).contains(x) || s2.contains(x) {
            assert((s0 + s1 + s2).contains(x));
        }
        if (s0 + s1 + s2).contains(x) || s3.contains(x) {
            assert((s0 + s1 + s2 + s3).contains(x));
        }
        if (s0 + s1 + s2 + s3).contains(x) || s4.contains(x) {
            assert((s0 + s1 + s2 + s3 + s4).contains(x));
        }
        if (s0 + s1 + s2 + s3 + s4).contains(x) || s5.contains(x) {
            assert((s0 + s1 + s2 + s3 + s4 + s5).contains(x));
        }
        if (s0 + s1 + s2 + s3 + s4 + s5).contains(x) || s6.contains(x) {
            assert((s0 + s1 + s2 + s3 + s4 + s5 + s6).contains(x));
        }
        if (s0 + s1 + s2 + s3 + s4 + s5 + s6).contains(x) || s7.contains(x) {
            assert((s0 + s1 + s2 + s3 + s4 + s5 + s6 + s7).contains(x));
        }
    }
}

proof fn lemma_concat8_multiset(
    s0: Seq<Particle>,
    s1: Seq<Particle>,
    s2: Seq<Particle>,
    s3: Seq<Particle>,
    s4: Seq<Particle>,
    s5: Seq<Particle>,
    s6: Seq<Particle>,
    s7: Seq<Particle>,
)
    ensures
        (s0 + s1 + s2 + s3 + s4 + s5 + s6 + s7).to_multiset() == s0.to_multiset().add(
            s1.to_multiset(),
        ).add(s2.to_multiset()).add(s3.to_multiset()).add(s4.to_multiset()).add(
            s5.to_multiset(),
        ).add(s6.to_multiset()).add(s7.to_multiset()),
{
    lemma_multiset_commutative(s0, s1);
    lemma_multiset_commutative(s0 + s1, s2);
    lemma_multiset_commutative(s0 + s1 + s2, s3);
    lemma_multiset_commutative(s0 + s1 + s2 + s3, s4);
    lemma_multiset_commutative(s0 + s1 + s2 + s3 + s4, s5);
    lemma_multiset_commutative(s0 + s1 + s2 + s3 + s4 + s5, s6);
    lemma_multiset_commutative(s0 + s1 + s2 + s3 + s4 + s5 + s6, s7);
}

/// Replacing one octant's particles by the same particles plus one new
/// particle does the same, up to order, to the branch as a whole.
proof fn lemma_octants_insert(a: Octants, b: Octants, k: int, p: Particle)
    requires
        0 <= k < 8,
        forall|j: int| 0 <= j < 8 && j != k ==> #[trigger] a.slot(j) == b.slot(j),
        opt_particles(b.slot(k)).to_multiset() == opt_particles(a.slot(k)).to_multiset().insert(p),
        opt_particles(b.slot(k)).len() == opt_particles(a.slot(k)).len() + 1,
    ensures
        node_particles(Node::Branch(b)).to_multiset() == node_particles(
            Node::Branch(a),
        ).to_multiset().insert(p),
        node_particles(Node::Branch(b)).len() == node_particles(Node::Branch(a)).len() + 1,
{
    assert(a.slot(0) == a.c0 && b.slot(0) == b.c0);
    assert(a.slot(1) == a.c1 && b.slot(1) == b.c1);
    assert(a.slot(2) == a.c2 && b.slot(2) == b.c2);
    assert(a.slot(3) == a.c3 && b.slot(3) == b.c3);
    assert(a.slot(4) == a.c4 && b.slot(4) == b.c4);
    assert(a.slot(5) == a.c5 && b.slot(5) == b.c5);
    assert(a.slot(6) == a.c6 && b.slot(6) == b.c6);
    assert(a.slot(7) == a.c7 && b.slot(7) == b.c7);
    lemma_concat8_multiset(
        opt_particles(a.c0),
        opt_particles(a.c1),
        opt_particles(a.c2),
        opt_particles(a.c3),
        opt_particles(a.c4),
        opt_particles(a.c5),
        opt_particles(a.c6),
        opt_particles(a.c7),
    );
    lemma_concat8_multiset(
        opt_particles(b.c0),
        opt_particles(b.c1),
        opt_particles(b.c2),
        opt_particles(b.c3),
        opt_particles(b.c4),
        opt_particles(b.c5),
        opt_particles(b.c6),
        opt_particles(b.c7),
    );
    assert(node_particles(Node::Branch(b)).to_multiset() =~= node_particles(
        Node::Branch(a),
    ).to_multiset().insert(p));
}

/// Inserts into an octant that already holds a subtree.
fn push_occupied(slot: &mut Option<Box<Tree>>, parent: Bound, k: usize, add_particle: Particle)
    requires
        parent.spec_proper(),
        k < 8,
        (*old(slot)) is Some,
        slot_wf(*old(slot), parent, k as int),
        oct_bound(parent, k as int).spec_in_bound(add_particle.position),
        forall|i: int|
            0 <= i < opt_particles(*old(slot)).len() ==> (#[trigger] opt_particles(
                *old(slot),
            )[i]).position != add_particle.position,
    ensures
        (*final(slot)) is Some,
        slot_wf(*final(slot), parent, k as int),
        opt_particles(*final(slot)).to_multiset() == opt_particles(
            *old(slot),
        ).to_multiset().insert(add_particle),
        opt_particles(*final(slot)).len() == opt_particles(*old(slot)).len() + 1,
    decreases width_sum(oct_bound(parent, k as int)), 2int, 0int,
{
    let mut boxed = slot.take().unwrap();
    proof {
        assert(Some(boxed) == *old(slot));
        assert(opt_particles(*old(slot)) == boxed.particles());
        assert forall|i: int|
            0 <= i < boxed.particles().len() implies (#[trigger] boxed.particles()[i]).position
            != add_particle.position by {
            assert(opt_particles(*old(slot))[i].position != add_particle.position);
        }
    }
    (&mut *boxed).push(add_particle);
    *slot = Some(boxed);
}

impl Tree {
    /// Inserts one particle. The particle's position must lie in the
    /// tree's box and differ from the position of every particle already
    /// held: coincident positions would force subdivision without end, so
    /// they are a caller-contract violation, ruled out here instead of
    /// looping forever.
    #[verifier::rlimit(50)]
    pub fn push(&mut self, add_particle: Particle)
        requires
            old(self).wf(),
            old(self).spec_bound().spec_in_bound(add_particle.position),
            forall|i: int|
                0 <= i < old(self).particles().len() ==> (#[trigger] old(
                    self,
                ).particles()[i]).position != add_particle.position,
        ensures
            final(self).wf(),
            final(self).spec_bound() == old(self).spec_bound(),
            final(self).particles().to_multiset() == old(self).particles().to_multiset().insert(
                add_particle,
            ),
            final(self).particles().len() == old(self).particles().len() + 1,
        decreases width_sum(old(self).spec_bound()), old(self).rank(), 1int,
    {
        let bound = self.bound;
        let center = bound.subdivision_center();
        let mut data = Node::Branch(empty_octants());
        core::mem::swap(&mut self.data, &mut data);
        match data {
            Node::Leaf(particle) => {
                proof {
                    assert(old(self).particles() == seq![particle]);
                    lemma_octant_of_point(bound, particle.position);
                }
                let particle_index = subdivision_index(&center, &particle.position);
                let new_bound = bound.subdivision_bound(&center, &particle.position);
                proof {
                    lemma_oct_bound_proper(bound, particle_index as int);
                }
                let child = Box::new(Tree { bound: new_bound, data: Node::Leaf(particle) });
                let mut ch = empty_octants();
                match particle_index {
                    0 => ch.c0 = Some(child),
                    1 => ch.c1 = Some(child),
                    2 => ch.c2 = Some(child),
                    3 => ch.c3 = Some(child),
                    4 => ch.c4 = Some(child),
                    5 => ch.c5 = Some(child),
                    6 => ch.c6 = Some(child),
                    _ => ch.c7 = Some(child),
                }
                self.data = Node::Branch(ch);
                proof {
                    reveal_with_fuel(Tree::particles, 2);
                    reveal_with_fuel(node_particles, 2);
                    reveal_with_fuel(Tree::wf, 2);
                    reveal_with_fuel(node_wf, 2);
                    assert(self.particles() =~= seq![particle]);
                    assert(slot_wf(ch.c0, bound, 0));
                    assert(slot_wf(ch.c1, bound, 1));
                    assert(slot_wf(ch.c2, bound, 2));
                    assert(slot_wf(ch.c3, bound, 3));
                    assert(slot_wf(ch.c4, bound, 4));
                    assert(slot_wf(ch.c5, bound, 5));
                    assert(slot_wf(ch.c6, bound, 6));
                    assert(slot_wf(ch.c7, bound, 7));
                    assert(self.wf());
                    assert(old(self).particles()[0] == particle);
                }
                self.push(add_particle);
            },
            Node::Branch(mut ch) => {
                proof {
                    assert(node_wf(Node::Branch(ch), bound));
                    assert(old(self).particles() == node_particles(Node::Branch(ch)));
                    assert forall|i: int|
                        0 <= i < node_particles(Node::Branch(ch)).len() implies (
                    #[trigger] node_particles(Node::Branch(ch))[i]).position
                        != add_particle.position by {
                        assert(old(self).particles()[i].position != add_particle.position);
                    }
                    lemma_octant_of_point(bound, add_particle.position);
                }
                branch_insert(&mut ch, bound, add_particle);
                self.data = Node::Branch(ch);
            },
        }
    }
}

/// Inserts into the octant of a branch that the particle's position
/// selects: a fresh leaf when the octant is empty, a recursive insertion
/// otherwise.
#[verifier::rlimit(50)]
fn branch_insert(ch: &mut Octants, bound: Bound, add_particle: Particle)
    requires
        bound.spec_proper(),
        node_wf(Node::Branch(*old(ch)), bound),
        bound.spec_in_bound(add_particle.position),
        forall|i: int|
            0 <= i < node_particles(Node::Branch(*old(ch))).len() ==> (#[trigger] node_particles(
                Node::Branch(*old(ch)),
            )[i]).position != add_particle.position,
    ensures
        node_wf(Node::Branch(*final(ch)), bound),
        node_particles(Node::Branch(*final(ch))).to_multiset() == node_particles(
            Node::Branch(*old(ch)),
        ).to_multiset().insert(add_particle),
        node_particles(Node::Branch(*final(ch))).len() == node_particles(
            Node::Branch(*old(ch)),
        ).len() + 1,
    decreases width_sum(bound), 0int, 0int,
{
    let ghost cho = *ch;
    let ghost whole = node_particles(Node::Branch(cho));
    let center = bound.subdivision_center();
    let k = subdivision_index(&center, &add_particle.position);
    let new_bound = bound.subdivision_bound(&center, &add_particle.position);
    proof {
        lemma_octant_of_point(bound, add_particle.position);
        lemma_oct_bound_proper(bound, k as int);
    }
    match k {
        0 => {
            if ch.c0.is_some() {
                proof {
                    descend_facts(cho, bound, 0, add_particle, whole);
                }
                push_occupied(&mut ch.c0, bound, 0, add_particle);
            } else {
                ch.c0 = Some(
                    Box::new(Tree { bound: new_bound, data: Node::Leaf(add_particle) }),
                );
                proof {
                    new_leaf_facts(ch.c0, bound, 0, add_particle);
                }
            }
            proof {
                lemma_octants_insert(cho, *ch, 0, add_particle);
            }
        },
        1 => {
            if ch.c1.is_some() {
                proof {
                    descend_facts(cho, bound, 1, add_particle, whole);
                }
                push_occupied(&mut ch.c1, bound, 1, add_particle);
            } else {
                ch.c1 = Some(
                    Box::new(Tree { bound: new_bound, data: Node::Leaf(add_particle) }),
                );
                proof {
                    new_leaf_facts(ch.c1, bound, 1, add_particle);
                }
            }
            proof {
                lemma_octants_insert(cho, *ch, 1, add_particle);
            }
        },
        2 => {
            if ch.c2.is_some() {
                proof {
                    descend_facts(cho, bound, 2, add_particle, whole);
                }
                push_occupied(&mut ch.c2, bound, 2, add_particle);
            } else {
                ch.c2 = Some(
                    Box::new(Tree { bound: new_bound, data: Node::Leaf(add_particle) }),
                );
                proof {
                    new_leaf_facts(ch.c2, bound, 2, add_particle);
                }
            }
            proof {
                lemma_octants_insert(cho, *ch, 2, add_particle);
            }
        },
        3 => {
            if ch.c3.is_some() {
                proof {
                    descend_facts(cho, bound, 3, add_particle, whole);
                }
                push_occupied(&mut ch.c3, bound, 3, add_particle);
            } else {
                ch.c3 = Some(
                    Box::new(Tree { bound: new_bound, data: Node::Leaf(add_particle) }),
                );
                proof {
                    new_leaf_facts(ch.c3, bound, 3, add_particle);
                }
            }
            proof {
                lemma_octants_insert(cho, *ch, 3, add_particle);
            }
        },
        4 => {
            if ch.c4.is_some() {
                proof {
                    descend_facts(cho, bound, 4, add_particle, whole);
                }
                push_occupied(&mut ch.c4, bound, 4, add_particle);
            } else {
                ch.c4 = Some(
                    Box::new(Tree { bound: new_bound, data: Node::Leaf(add_particle) }),
                );
                proof {
                    new_leaf_facts(ch.c4, bound, 4, add_particle);
                }
            }
            proof {
                lemma_octants_insert(cho, *ch, 4, add_particle);
            }
        },
        5 => {
            if ch.c5.is_some() {
                proof {
                    descend_facts(cho, bound, 5, add_particle, whole);
                }
                push_occupied(&mut ch.c5, bound, 5, add_particle);
            } else {
                ch.c5 = Some(
                    Box::new(Tree { bound: new_bound, data: Node::Leaf(add_particle) }),
                );
                proof {
                    new_leaf_facts(ch.c5, bound, 5, add_particle);
                }
            }
            proof {
                lemma_octants_insert(cho, *ch, 5, add_particle);
            }
        },
        6 => {
            if ch.c6.is_some() {
                proof {
                    descend_facts(cho, bound, 6, add_particle, whole);
                }
                push_occupied(&mut ch.c6, bound, 6, add_particle);
            } else {
                ch.c6 = Some(
                    Box::new(Tree { bound: new_bound, data: Node::Leaf(add_particle) }),
                );
                proof {
                    new_leaf_facts(ch.c6, bound, 6, add_particle);
                }
            }
            proof {
                lemma_octants_insert(cho, *ch, 6, add_particle);
            }
        },
        _ => {
            if ch.c7.is_some() {
                proof {
                    descend_facts(cho, bound, 7, add_particle, whole);
                }
                push_occupied(&mut ch.c7, bound, 7, add_particle);
            } else {
                ch.c7 = Some(
                    Box::new(Tree { bound: new_bound, data: Node::Leaf(add_particle) }),
                );
                proof {
                    new_leaf_facts(ch.c7, bound, 7, add_particle);
                }
            }
            proof {
                lemma_octants_insert(cho, *ch, 7, add_particle);
            }
        },
    }
}

/// The facts needed to step into an occupied octant: the incoming
/// particle's position differs from every position under the octant, some
/// particle sits in the parent box already, and the octant's box is
/// strictly narrower than the parent's.
proof fn descend_facts(ch: Octants, b: Bound, k: int, p: Particle, whole: Seq<Particle>)
    requires
        0 <= k < 8,
        b.spec_proper(),
        node_wf(Node::Branch(ch), b),
        ch.slot(k) is Some,
        b.spec_in_bound(p.position),
        whole == node_particles(Node::Branch(ch)),
        forall|i: int|
            0 <= i < whole.len() ==> (#[trigger] whole[i]).position != p.position,
    ensures
        forall|i: int|
            0 <= i < opt_particles(ch.slot(k)).len() ==> (#[trigger] opt_particles(
                ch.slot(k),
            )[i]).position != p.position,
        0 <= width_sum(oct_bound(b, k)),
        width_sum(oct_bound(b, k)) < width_sum(b),
{
    assert(ch.slot(0) == ch.c0);
    assert(ch.slot(1) == ch.c1);
    assert(ch.slot(2) == ch.c2);
    assert(ch.slot(3) == ch.c3);
    assert(ch.slot(4) == ch.c4);
    assert(ch.slot(5) == ch.c5);
    assert(ch.slot(6) == ch.c6);
    assert(ch.slot(7) == ch.c7);
    lemma_branch_contains(ch);
    let s = opt_particles(ch.slot(k));
    assert forall|i: int| 0 <= i < s.len() implies (#[trigger] s[i]).position != p.position by {
        let x = s[i];
        assert(s.contains(x));
        assert(node_particles(Node::Branch(ch)).contains(x));
        let j = choose|j: int| 0 <= j < whole.len() && whole[j] == x;
        assert(whole[j] == x);
    }
    assert(slot_wf(ch.slot(k), b, k));
    lemma_slot_particles_within(ch.slot(k), b, k);
    let p0 = s[0];
    assert(b.spec_in_bound(p0.position));
    assert(p0.position != p.position);
    lemma_octant_width(b, k, p.position, p0.position);
}

/// The facts needed after laying a fresh leaf into an empty octant.
proof fn new_leaf_facts(o: Option<Box<Tree>>, b: Bound, k: int, p: Particle)
    requires
        0 <= k < 8,
        b.spec_proper(),
        oct_bound(b, k).spec_proper(),
        oct_bound(b, k).spec_in_bound(p.position),
        o matches Some(t) && t.spec_bound() == oct_bound(b, k) && t.data == Node::Leaf(p),
    ensures
        slot_wf(o, b, k),
        opt_particles(o).to_multiset() == opt_particles(
            Option::<Box<Tree>>::None,
        ).to_multiset().insert(p),
        opt_particles(o).len() == 1,
{
    broadcast use vstd::seq_lib::group_to_multiset_ensures;

    assert(opt_particles(o) == seq![p]);
    assert(seq![p] =~= Seq::<Particle>::empty().push(p));
    assert(opt_particles(Option::<Box<Tree>>::None) == Seq::<Particle>::empty());
}

/// What `push` promises, read back as membership: a tree whose particle
/// population arose by adding `p` to some earlier population holds `p`.
pub proof fn lemma_held_after_push(t: Tree, m: Multiset<Particle>, p: Particle)
    requires
        t.particles().to_multiset() == m.insert(p),
    ensures
        t.particles().contains(p),
{
    broadcast use vstd::seq_lib::group_to_multiset_ensures;

    assert(t.particles().to_multiset().count(p) > 0);
}

/// No false negatives: a query box that contains the position of a
/// particle held by the tree finds that particle.
pub proof fn lemma_search_finds(t: Tree, q: Bound, p: Particle)
    requires
        t.particles().contains(p),
        q.spec_in_bound(p.position),
    ensures
        t.found(q).contains(p),
{
    let s = t.particles();
    let i = choose|i: int| 0 <= i < s.len() && s[i] == p;
    Seq::lemma_filter_contains(s, hits(q), i);
}

/// A query box that does not overlap the tree's own box finds nothing.
pub proof fn lemma_search_disjoint(t: Tree, q: Bound)
    requires
        t.wf(),
        !t.spec_bound().spec_overlap(q),
    ensures
        t.found(q) == Seq::<Particle>::empty(),
{
    lemma_particles_within(t);
    assert forall|i: int| 0 <= i < t.particles().len() implies !hits(q)(
        #[trigger] t.particles()[i],
    ) by {
        if hits(q)(t.particles()[i]) {
            lemma_in_bound_overlap(t.spec_bound(), q, t.particles()[i].position);
        }
    }
    lemma_filter_all_fail(t.particles(), hits(q));
}

/// Querying with the tree's own box, or any box containing every held
/// position, returns every particle: none is lost or duplicated.
pub proof fn lemma_search_covering(t: Tree, q: Bound)
    requires
        t.wf(),
        forall|i: int|
            0 <= i < t.particles().len() ==> q.spec_in_bound(
                (#[trigger] t.particles()[i]).position,
            ),
    ensures
        t.found(q) == t.particles(),
{
    assert forall|i: int| 0 <= i < t.particles().len() implies hits(q)(
        #[trigger] t.particles()[i],
    ) by {
        assert(q.spec_in_bound(t.particles()[i].position));
    }
    lemma_filter_all_pass(t.particles(), hits(q));
}

/// The tree's own box contains every held position, so a query with the
/// root box returns the whole population.
pub proof fn lemma_search_root(t: Tree)
    requires
        t.wf(),
    ensures
        t.found(t.spec_bound()) == t.particles(),
{
    lemma_particles_within(t);
    lemma_search_covering(t, t.spec_bound());
}

proof fn lemma_filter_multiset_count<A>(s: Seq<A>, pred: spec_fn(A) -> bool, x: A)
    ensures
        s.filter(pred).to_multiset().count(x) == if pred(x) {
            s.to_multiset().count(x)
        } else {
            0
        },
    decreases s.len(),
{
    broadcast use vstd::seq_lib::group_to_multiset_ensures;

    reveal(Seq::filter);
    if s.len() == 0 {
        assert(s.filter(pred) =~= Seq::<A>::empty());
        assert(!Seq::<A>::empty().contains(x));
        assert(!Seq::<A>::empty().to_multiset().contains(x));
    } else {
        let dl = s.drop_last();
        let last = s.last();
        lemma_filter_multiset_count(dl, pred, x);
        assert(s =~= dl.push(last));
        assert(s.to_multiset() =~= dl.to_multiset().insert(last));
        if pred(last) {
            assert(s.filter(pred) =~= dl.filter(pred).push(last));
            assert(s.filter(pred).to_multiset() =~= dl.filter(pred).to_multiset().insert(last));
        } else {
            assert(s.filter(pred) =~= dl.filter(pred));
        }
    }
}

/// Insertion order does not matter: two trees holding the same particles,
/// however they were built, answer every query with the same particles,
/// up to the traversal order.
pub proof fn lemma_search_order_independent(t1: Tree, t2: Tree, q: Bound)
    requires
        t1.particles().to_multiset() == t2.particles().to_multiset(),
    ensures
        t1.found(q).to_multiset() == t2.found(q).to_multiset(),
{
    assert forall|x: Particle|
        #[trigger] t1.found(q).to_multiset().count(x) == t2.found(q).to_multiset().count(x) by {
        lemma_filter_multiset_count(t1.particles(), hits(q), x);
        lemma_filter_multiset_count(t2.particles(), hits(q), x);
    }
    assert(t1.found(q).to_multiset() =~= t2.found(q).to_multiset());
}

/// A branch with no children yet.
fn empty_octants() -> (o: Octants)
    ensures
        o.c0 is None,
        o.c1 is None,
        o.c2 is None,
        o.c3 is None,
        o.c4 is None,
        o.c5 is None,
        o.c6 is None,
        o.c7 is None,
{
    Octants {
        c0: None,
        c1: None,
        c2: None,
        c3: None,
        c4: None,
        c5: None,
        c6: None,
        c7: None,
    }
}

} // verus!

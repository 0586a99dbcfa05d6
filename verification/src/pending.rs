//! The pending queue: the points that wait to be painted. Which point leaves
//! next is what shapes the growth.

use crate::point::{key_lt, Key, Point};
use crate::random::draw_below;
use crate::text::{number_in, parse_number};
use rand::rngs::StdRng;
use std::collections::BTreeSet;
use vstd::prelude::*;
use vstd::std_specs::iter::IteratorSpec;

verus! {

broadcast use {vstd::std_specs::btree::group_btree_axioms, vstd::laws_cmp::group_laws_cmp};

/// The points that wait, held according to one of four policies.
#[derive(Debug)]
pub enum PendingKind {
    /// A bag: a point chosen at random leaves.
    VecPopRandom(Vec<Point>),
    /// A stack: the point that came last leaves. The number is the chance,
    /// out of a hundred, that the neighbours of a cell are shuffled before
    /// they are pushed.
    VecShuffleNeighbours(Vec<Point>, u8),
    /// An ordered set: the least point leaves.
    SetBTree(BTreeSet<Key>),
    /// An ordered set: the greatest point leaves.
    SetBTreeRev(BTreeSet<Key>),
}

/// Removes the least key of `set` and returns it.
///
/// Calls `BTreeSet::pop_first`, documented to remove and return the first
/// element, which is the minimum of the set, and to return `None` on an
/// empty set. Keys are tuples of integers, which std orders
/// lexicographically.
#[verifier::external_body]
fn take_first(set: &mut BTreeSet<Key>) -> (k: Option<Key>)
    ensures
        match k {
            Some(k) => {
                &&& old(set)@.contains(k)
                &&& final(set)@ == old(set)@.remove(k)
                &&& forall|j: Key| old(set)@.contains(j) ==> j == k || key_lt(k, j)
            },
            None => old(set)@.is_empty() && final(set)@ == old(set)@,
        },
{
    set.pop_first()
}

/// Removes the greatest key of `set` and returns it.
///
/// Calls `BTreeSet::pop_last`, documented to remove and return the last
/// element, which is the maximum of the set, and to return `None` on an
/// empty set. Keys are tuples of integers, which std orders
/// lexicographically.
#[verifier::external_body]
fn take_last(set: &mut BTreeSet<Key>) -> (k: Option<Key>)
    ensures
        match k {
            Some(k) => {
                &&& old(set)@.contains(k)
                &&& final(set)@ == old(set)@.remove(k)
                &&& forall|j: Key| old(set)@.contains(j) ==> j == k || key_lt(j, k)
            },
            None => old(set)@.is_empty() && final(set)@ == old(set)@,
        },
{
    set.pop_last()
}

/// An ordered set holds finitely many keys.
pub proof fn lemma_set_finite(set: &BTreeSet<Key>)
    ensures
        set@.finite(),
{
    broadcast use vstd::seq_lib::seq_to_set_is_finite;

    let keys = vstd::std_specs::btree::spec_btree_keys_iter(set).remaining();
    assert(keys.unref().to_set() == set@);
}

/// The word `tree`, which asks for the ascending set.
pub open spec fn word_tree() -> Seq<u8> {
    seq![116u8, 114u8, 101u8, 101u8]
}

/// The word `treerev`, which asks for the descending set.
pub open spec fn word_treerev() -> Seq<u8> {
    seq![116u8, 114u8, 101u8, 101u8, 114u8, 101u8, 118u8]
}

/// Whether `queue` follows the policy that `kind` asks for: a number up to
/// a hundred asks for a stack with that chance, the words `tree` and
/// `treerev` for the two sets, and anything else for a bag.
pub open spec fn selects(kind: Seq<u8>, queue: PendingKind) -> bool {
    match number_in(kind, 255) {
        Ok(chance) if chance <= 100 => queue matches PendingKind::VecShuffleNeighbours(_, c)
            && c == chance,
        _ => if kind == word_tree() {
            queue is SetBTree
        } else if kind == word_treerev() {
            queue is SetBTreeRev
        } else {
            queue is VecPopRandom
        },
    }
}

/// Whether one of the points of `fresh` has the key `k`.
pub open spec fn keyed(fresh: Seq<Point>, k: Key) -> bool {
    exists|i: int| 0 <= i < fresh.len() && (#[trigger] fresh[i]).key() == k
}

fn same_text(a: &[u8], b: &[u8]) -> (same: bool)
    ensures
        same == (a@ == b@),
{
    if a.len() != b.len() {
        return false;
    }
    let mut i: usize = 0;
    while i < a.len()
        invariant
            i <= a.len(),
            a.len() == b.len(),
            forall|j: int| 0 <= j < i ==> a@[j] == b@[j],
        decreases a.len() - i,
    {
        if a[i] != b[i] {
            return false;
        }
        i = i + 1;
    }
    assert(a@ =~= b@);
    true
}

fn vec_holds(vec: &Vec<Point>, point: &Point) -> (b: bool)
    ensures
        b == vec@.contains(*point),
{
    let mut i: usize = 0;
    while i < vec.len()
        invariant
            i <= vec.len(),
            forall|j: int| 0 <= j < i ==> vec@[j] != *point,
        decreases vec.len() - i,
    {
        if vec[i] == *point {
            return true;
        }
        i = i + 1;
    }
    false
}

impl PendingKind {
    /// The chance of a stack is at most a hundred.
    pub open spec fn wf(&self) -> bool {
        match *self {
            PendingKind::VecShuffleNeighbours(_, chance) => chance <= 100,
            _ => true,
        }
    }

    /// Whether `p` waits in the queue.
    pub open spec fn holds(&self, p: Point) -> bool {
        match *self {
            PendingKind::VecPopRandom(vec) => vec@.contains(p),
            PendingKind::VecShuffleNeighbours(vec, _) => vec@.contains(p),
            PendingKind::SetBTree(set) => set@.contains(p.key()),
            PendingKind::SetBTreeRev(set) => set@.contains(p.key()),
        }
    }

    /// How many points wait.
    pub open spec fn count(&self) -> nat {
        match *self {
            PendingKind::VecPopRandom(vec) => vec@.len(),
            PendingKind::VecShuffleNeighbours(vec, _) => vec@.len(),
            PendingKind::SetBTree(set) => set@.len(),
            PendingKind::SetBTreeRev(set) => set@.len(),
        }
    }

    /// Whether no point waits twice. Of a set this always holds.
    pub open spec fn distinct(&self) -> bool {
        match *self {
            PendingKind::VecPopRandom(vec) => vec@.no_duplicates(),
            PendingKind::VecShuffleNeighbours(vec, _) => vec@.no_duplicates(),
            PendingKind::SetBTree(_) => true,
            PendingKind::SetBTreeRev(_) => true,
        }
    }

    /// Whether `other` follows the same policy: the same variant and, for a
    /// stack, the same chance.
    pub open spec fn same_policy(&self, other: &PendingKind) -> bool {
        match (*self, *other) {
            (PendingKind::VecPopRandom(_), PendingKind::VecPopRandom(_)) => true,
            (PendingKind::VecShuffleNeighbours(_, c), PendingKind::VecShuffleNeighbours(_, d)) => c
                == d,
            (PendingKind::SetBTree(_), PendingKind::SetBTree(_)) => true,
            (PendingKind::SetBTreeRev(_), PendingKind::SetBTreeRev(_)) => true,
            _ => false,
        }
    }

    /// The chance, out of a hundred, that neighbours are shuffled: the one
    /// stored in a stack, and zero for every other policy.
    pub open spec fn chance(&self) -> u8 {
        match *self {
            PendingKind::VecShuffleNeighbours(_, chance) => chance,
            _ => 0u8,
        }
    }

    /// Whether `next` is this queue after the points of `fresh` were added
    /// one after the other: pushed at the end of a bag or a stack in their
    /// order, inserted into a set.
    pub open spec fn extended(&self, fresh: Seq<Point>, next: &PendingKind) -> bool {
        match (*self, *next) {
            (PendingKind::VecPopRandom(a), PendingKind::VecPopRandom(b)) => b@ == a@ + fresh,
            (
                PendingKind::VecShuffleNeighbours(a, c),
                PendingKind::VecShuffleNeighbours(b, d),
            ) => b@ == a@ + fresh && c == d,
            (PendingKind::SetBTree(a), PendingKind::SetBTree(b)) => (forall|k: Key| #[trigger]
                b@.contains(k) <==> a@.contains(k) || keyed(fresh, k)),
            (PendingKind::SetBTreeRev(a), PendingKind::SetBTreeRev(b)) => (forall|k: Key| #[trigger]
                b@.contains(k) <==> a@.contains(k) || keyed(fresh, k)),
            _ => false,
        }
    }

    /// Whether `next` is this queue after `point` was added: pushed at the
    /// end of a bag or a stack, inserted into a set.
    pub open spec fn added(&self, point: Point, next: &PendingKind) -> bool {
        match (*self, *next) {
            (PendingKind::VecPopRandom(a), PendingKind::VecPopRandom(b)) => b@ == a@.push(point),
            (
                PendingKind::VecShuffleNeighbours(a, c),
                PendingKind::VecShuffleNeighbours(b, d),
            ) => b@ == a@.push(point) && c == d,
            (PendingKind::SetBTree(a), PendingKind::SetBTree(b)) => b@ == a@.insert(point.key()),
            (PendingKind::SetBTreeRev(a), PendingKind::SetBTreeRev(b)) => b@ == a@.insert(
                point.key(),
            ),
            _ => false,
        }
    }

    /// Whether `next` is this queue after `point` left it, `which` being the
    /// position drawn for a bag: the bag gives up the point at `which`, the
    /// stack its last point, the sets their least or greatest point.
    pub open spec fn popped(&self, which: int, point: Point, next: &PendingKind) -> bool {
        match (*self, *next) {
            (PendingKind::VecPopRandom(a), PendingKind::VecPopRandom(b)) => {
                &&& 0 <= which < a@.len()
                &&& point == a@[which]
                &&& b@ == a@.remove(which)
            },
            (PendingKind::VecShuffleNeighbours(a, c), PendingKind::VecShuffleNeighbours(b, d)) => {
                &&& a@.len() > 0
                &&& point == a@.last()
                &&& b@ == a@.drop_last()
                &&& c == d
            },
            (PendingKind::SetBTree(a), PendingKind::SetBTree(b)) => {
                &&& a@.contains(point.key())
                &&& b@ == a@.remove(point.key())
                &&& forall|k: Key| a@.contains(k) ==> k == point.key() || key_lt(point.key(), k)
            },
            (PendingKind::SetBTreeRev(a), PendingKind::SetBTreeRev(b)) => {
                &&& a@.contains(point.key())
                &&& b@ == a@.remove(point.key())
                &&& forall|k: Key| a@.contains(k) ==> k == point.key() || key_lt(k, point.key())
            },
            _ => false,
        }
    }

    /// The empty queue of the policy that `kind` asks for.
    pub fn select(kind: &[u8]) -> (queue: PendingKind)
        ensures
            queue.count() == 0,
            queue.wf(),
            selects(kind@, queue),
    {
        match parse_number(kind, 255) {
            Ok(chance) if chance <= 100 => {
                return PendingKind::VecShuffleNeighbours(Vec::new(), chance as u8);
            },
            _ => {},
        }
        let tree: Vec<u8> = vec![116, 114, 101, 101];
        let treerev: Vec<u8> = vec![116, 114, 101, 101, 114, 101, 118];
        assert(tree@ =~= word_tree());
        assert(treerev@ =~= word_treerev());
        if same_text(kind, tree.as_slice()) {
            PendingKind::SetBTree(BTreeSet::new())
        } else if same_text(kind, treerev.as_slice()) {
            PendingKind::SetBTreeRev(BTreeSet::new())
        } else {
            PendingKind::VecPopRandom(Vec::new())
        }
    }

    /// Adds a point. A set that already holds the point stays as it is.
    pub fn add(&mut self, point: Point)
        ensures
            old(self).added(point, final(self)),
    {
        match self {
            PendingKind::VecPopRandom(vec) => {
                vec.push(point);
            },
            PendingKind::VecShuffleNeighbours(vec, _) => {
                vec.push(point);
            },
            PendingKind::SetBTree(set) => {
                set.insert(point.to_key());
            },
            PendingKind::SetBTreeRev(set) => {
                set.insert(point.to_key());
            },
        }
    }

    /// Whether any point waits.
    pub fn has_any(&self) -> (b: bool)
        ensures
            b == (self.count() > 0),
    {
        match self {
            PendingKind::VecPopRandom(vec) => !vec.is_empty(),
            PendingKind::VecShuffleNeighbours(vec, _) => !vec.is_empty(),
            PendingKind::SetBTree(set) => set.len() != 0,
            PendingKind::SetBTreeRev(set) => set.len() != 0,
        }
    }

    /// How many points wait.
    pub fn len(&self) -> (n: usize)
        ensures
            n == self.count(),
    {
        match self {
            PendingKind::VecPopRandom(vec) => vec.len(),
            PendingKind::VecShuffleNeighbours(vec, _) => vec.len(),
            PendingKind::SetBTree(set) => set.len(),
            PendingKind::SetBTreeRev(set) => set.len(),
        }
    }

    /// Whether `point` waits in the queue.
    pub fn contains(&self, point: &Point) -> (b: bool)
        ensures
            b == self.holds(*point),
    {
        match self {
            PendingKind::VecPopRandom(vec) => vec_holds(vec, point),
            PendingKind::VecShuffleNeighbours(vec, _) => vec_holds(vec, point),
            PendingKind::SetBTree(set) => set.contains(&point.to_key()),
            PendingKind::SetBTreeRev(set) => set.contains(&point.to_key()),
        }
    }

    /// The chance, out of a hundred, that neighbours are shuffled: the one
    /// stored in a stack, and zero for every other policy.
    pub fn shuffle_chance(&self) -> (chance: u8)
        ensures
            chance == self.chance(),
            self.wf() ==> chance <= 100,
    {
        match self {
            PendingKind::VecShuffleNeighbours(_, chance) => *chance,
            _ => 0,
        }
    }

    /// Removes the point that the policy picks, `which` standing for the
    /// position drawn in a bag, and returns it.
    pub fn pop_at(&mut self, which: usize) -> (point: Point)
        requires
            old(self).count() > 0,
            *old(self) is VecPopRandom ==> which < old(self).count(),
        ensures
            old(self).popped(which as int, point, final(self)),
    {
        match self {
            PendingKind::VecPopRandom(vec) => vec.remove(which),
            PendingKind::VecShuffleNeighbours(vec, _) => {
                match vec.pop() {
                    Some(point) => point,
                    None => vstd::pervasive::unreached(),
                }
            },
            PendingKind::SetBTree(set) => {
                match take_first(set) {
                    Some(key) => Point::from_key(key),
                    None => vstd::pervasive::unreached(),
                }
            },
            PendingKind::SetBTreeRev(set) => {
                match take_last(set) {
                    Some(key) => Point::from_key(key),
                    None => vstd::pervasive::unreached(),
                }
            },
        }
    }

    /// Removes and returns one point: a random one from a bag, the last one
    /// from a stack, the least or the greatest from a set.
    pub fn pop(&mut self, rng: &mut StdRng) -> (point: Point)
        requires
            old(self).count() > 0,
        ensures
            exists|which: int|
                0 <= which < old(self).count() && #[trigger] old(self).popped(
                    which,
                    point,
                    final(self),
                ),
    {
        let which: usize = match self {
            PendingKind::VecPopRandom(vec) => draw_below(rng, vec.len() as u64) as usize,
            _ => 0,
        };
        self.pop_at(which)
    }
}

/// What adding a point does to membership and to the count.
pub proof fn lemma_added(before: PendingKind, point: Point, after: PendingKind)
    requires
        before.added(point, &after),
    ensures
        before.same_policy(&after),
        forall|q: Point| after.holds(q) <==> before.holds(q) || q == point,
        !before.holds(point) ==> after.count() == before.count() + 1,
        before.holds(point) ==> after.count() >= before.count(),
        before.distinct() && !before.holds(point) ==> after.distinct(),
{
    match (before, after) {
        (PendingKind::VecPopRandom(a), PendingKind::VecPopRandom(b)) => {
            lemma_push_holds(a@, point);
        },
        (PendingKind::VecShuffleNeighbours(a, _), PendingKind::VecShuffleNeighbours(b, _)) => {
            lemma_push_holds(a@, point);
        },
        (PendingKind::SetBTree(a), PendingKind::SetBTree(b)) => {
            lemma_set_finite(&a);
            assert forall|q: Point| after.holds(q) <==> before.holds(q) || q == point by {
                assert(q.key() == point.key() <==> q == point);
            }
        },
        (PendingKind::SetBTreeRev(a), PendingKind::SetBTreeRev(b)) => {
            lemma_set_finite(&a);
            assert forall|q: Point| after.holds(q) <==> before.holds(q) || q == point by {
                assert(q.key() == point.key() <==> q == point);
            }
        },
        _ => {},
    }
}

/// What removing a point does to membership and to the count.
pub proof fn lemma_popped(before: PendingKind, which: int, point: Point, after: PendingKind)
    requires
        before.popped(which, point, &after),
    ensures
        before.same_policy(&after),
        before.holds(point),
        after.count() + 1 == before.count(),
        forall|q: Point| after.holds(q) ==> before.holds(q),
        forall|q: Point| before.holds(q) && q != point ==> after.holds(q),
        before.distinct() ==> after.distinct() && !after.holds(point),
{
    match (before, after) {
        (PendingKind::VecPopRandom(a), PendingKind::VecPopRandom(b)) => {
            lemma_remove_holds(a@, which);
        },
        (PendingKind::VecShuffleNeighbours(a, _), PendingKind::VecShuffleNeighbours(b, _)) => {
            assert(a@.drop_last() == a@.remove(a@.len() - 1));
            lemma_remove_holds(a@, a@.len() - 1);
        },
        (PendingKind::SetBTree(a), PendingKind::SetBTree(b)) => {
            lemma_set_finite(&a);
            assert forall|q: Point| before.holds(q) && q != point implies after.holds(q) by {
                assert(q.key() != point.key());
            }
        },
        (PendingKind::SetBTreeRev(a), PendingKind::SetBTreeRev(b)) => {
            lemma_set_finite(&a);
            assert forall|q: Point| before.holds(q) && q != point implies after.holds(q) by {
                assert(q.key() != point.key());
            }
        },
        _ => {},
    }
}

/// Adding no point leaves a queue as it is.
pub proof fn lemma_extended_none(queue: PendingKind)
    ensures
        queue.extended(Seq::empty(), &queue),
{
    match queue {
        PendingKind::VecPopRandom(a) => {
            assert(a@ + Seq::<Point>::empty() =~= a@);
        },
        PendingKind::VecShuffleNeighbours(a, _) => {
            assert(a@ + Seq::<Point>::empty() =~= a@);
        },
        _ => {},
    }
}

/// Adding one more point extends a queue by one more point.
pub proof fn lemma_extended_push(
    start: PendingKind,
    fresh: Seq<Point>,
    before: PendingKind,
    point: Point,
    after: PendingKind,
)
    requires
        start.extended(fresh, &before),
        before.added(point, &after),
    ensures
        start.extended(fresh.push(point), &after),
{
    let more = fresh.push(point);
    match (start, before, after) {
        (
            PendingKind::VecPopRandom(a),
            PendingKind::VecPopRandom(b),
            PendingKind::VecPopRandom(c),
        ) => {
            assert(c@ =~= a@ + more);
        },
        (
            PendingKind::VecShuffleNeighbours(a, _),
            PendingKind::VecShuffleNeighbours(b, _),
            PendingKind::VecShuffleNeighbours(c, _),
        ) => {
            assert(c@ =~= a@ + more);
        },
        (PendingKind::SetBTree(a), PendingKind::SetBTree(b), PendingKind::SetBTree(c)) => {
            lemma_keyed_push(fresh, point);
            assert forall|k: Key| c@.contains(k) <==> a@.contains(k) || keyed(more, k) by {
                assert(c@.contains(k) <==> b@.contains(k) || k == point.key());
            }
        },
        (
            PendingKind::SetBTreeRev(a),
            PendingKind::SetBTreeRev(b),
            PendingKind::SetBTreeRev(c),
        ) => {
            lemma_keyed_push(fresh, point);
            assert forall|k: Key| c@.contains(k) <==> a@.contains(k) || keyed(more, k) by {
                assert(c@.contains(k) <==> b@.contains(k) || k == point.key());
            }
        },
        _ => {},
    }
}

proof fn lemma_keyed_push(fresh: Seq<Point>, point: Point)
    ensures
        forall|k: Key| keyed(fresh.push(point), k) <==> keyed(fresh, k) || k == point.key(),
{
    let more = fresh.push(point);
    assert forall|k: Key| keyed(more, k) <==> keyed(fresh, k) || k == point.key() by {
        if keyed(more, k) {
            let i = choose|i: int| 0 <= i < more.len() && (#[trigger] more[i]).key() == k;
            if i < fresh.len() {
                assert(fresh[i].key() == k);
            }
        }
        if keyed(fresh, k) {
            let i = choose|i: int| 0 <= i < fresh.len() && (#[trigger] fresh[i]).key() == k;
            assert(more[i].key() == k);
        }
        if k == point.key() {
            assert(more[fresh.len() as int].key() == k);
        }
    }
}

/// What an extended queue holds: what it held before, and the new points.
pub proof fn lemma_extended_holds(before: PendingKind, fresh: Seq<Point>, after: PendingKind)
    requires
        before.extended(fresh, &after),
    ensures
        before.same_policy(&after),
        forall|q: Point| after.holds(q) <==> before.holds(q) || fresh.contains(q),
{
    assert forall|q: Point| after.holds(q) <==> before.holds(q) || fresh.contains(q) by {
        match (before, after) {
            (PendingKind::VecPopRandom(a), PendingKind::VecPopRandom(b)) => {
                lemma_joined_holds(a@, fresh, q);
            },
            (PendingKind::VecShuffleNeighbours(a, _), PendingKind::VecShuffleNeighbours(b, _)) => {
                lemma_joined_holds(a@, fresh, q);
            },
            _ => {
                if fresh.contains(q) {
                    let i = choose|i: int| 0 <= i < fresh.len() && fresh[i] == q;
                    assert(fresh[i].key() == q.key());
                }
                if keyed(fresh, q.key()) {
                    let i = choose|i: int|
                        0 <= i < fresh.len() && (#[trigger] fresh[i]).key() == q.key();
                    assert(fresh[i] == q);
                }
            },
        }
    }
}

proof fn lemma_joined_holds(s: Seq<Point>, t: Seq<Point>, q: Point)
    ensures
        (s + t).contains(q) <==> s.contains(q) || t.contains(q),
{
    let all = s + t;
    if all.contains(q) {
        let i = choose|i: int| 0 <= i < all.len() && all[i] == q;
        if i < s.len() {
            assert(s[i] == q);
        } else {
            assert(t[i - s.len()] == q);
        }
    }
    if s.contains(q) {
        let i = choose|i: int| 0 <= i < s.len() && s[i] == q;
        assert(all[i] == q);
    }
    if t.contains(q) {
        let i = choose|i: int| 0 <= i < t.len() && t[i] == q;
        assert(all[i + s.len()] == q);
    }
}

/// Which point leaves: the last of a stack, the least of an ascending
/// set, the greatest of a descending set, each among the points that the
/// queue holds at that moment.
pub proof fn lemma_popped_extreme(before: PendingKind, which: int, point: Point, after: PendingKind)
    requires
        before.popped(which, point, &after),
    ensures
        before matches PendingKind::VecShuffleNeighbours(items, _) ==> point == items@.last(),
        before is SetBTree ==> forall|q: Point| #[trigger]
            before.holds(q) ==> q == point || point.precedes(q),
        before is SetBTreeRev ==> forall|q: Point| #[trigger]
            before.holds(q) ==> q == point || q.precedes(point),
{
}

/// A queue that counts no point holds none, and the other way round.
pub proof fn lemma_count_holds(queue: PendingKind)
    ensures
        queue.count() == 0 <==> forall|q: Point| !queue.holds(q),
{
    match queue {
        PendingKind::VecPopRandom(a) => {
            lemma_items_count(a@);
            if a@.len() > 0 {
                assert(queue.holds(a@[0]));
            }
        },
        PendingKind::VecShuffleNeighbours(a, _) => {
            lemma_items_count(a@);
            if a@.len() > 0 {
                assert(queue.holds(a@[0]));
            }
        },
        PendingKind::SetBTree(a) => {
            lemma_keys_count(&a);
            if a@.len() > 0 {
                assert(queue.holds(Point::of_key(a@.choose())));
            }
        },
        PendingKind::SetBTreeRev(a) => {
            lemma_keys_count(&a);
            if a@.len() > 0 {
                assert(queue.holds(Point::of_key(a@.choose())));
            }
        },
    }
}

proof fn lemma_items_count(s: Seq<Point>)
    ensures
        s.len() == 0 <==> forall|q: Point| !s.contains(q),
{
    if s.len() > 0 {
        assert(s.contains(s[0]));
    } else {
        assert forall|q: Point| !s.contains(q) by {
            if s.contains(q) {
                let i = choose|i: int| 0 <= i < s.len() && s[i] == q;
            }
        }
    }
}

proof fn lemma_keys_count(set: &BTreeSet<Key>)
    ensures
        set@.len() == 0 ==> forall|q: Point| !set@.contains(q.key()),
        set@.len() > 0 ==> set@.contains(Point::of_key(set@.choose()).key()),
{
    lemma_set_finite(set);
    if set@.len() == 0 {
        assert(set@ =~= Set::empty());
    } else {
        let k = set@.choose();
        assert(set@.contains(k));
        assert(Point::of_key(k).key() == k);
        assert(set@.contains(Point::of_key(k).key()));
    }
}

proof fn lemma_push_holds(s: Seq<Point>, point: Point)
    ensures
        forall|q: Point| s.push(point).contains(q) <==> s.contains(q) || q == point,
        s.no_duplicates() && !s.contains(point) ==> s.push(point).no_duplicates(),
{
    let t = s.push(point);
    assert forall|q: Point| t.contains(q) <==> s.contains(q) || q == point by {
        if t.contains(q) {
            let i = choose|i: int| 0 <= i < t.len() && t[i] == q;
            if i < s.len() {
                assert(s[i] == q);
            }
        }
        if s.contains(q) {
            let i = choose|i: int| 0 <= i < s.len() && s[i] == q;
            assert(t[i] == q);
        }
        if q == point {
            assert(t[s.len() as int] == q);
        }
    }
}

proof fn lemma_remove_holds(s: Seq<Point>, which: int)
    requires
        0 <= which < s.len(),
    ensures
        s.contains(s[which]),
        forall|q: Point| s.remove(which).contains(q) ==> s.contains(q),
        forall|q: Point| s.contains(q) && q != s[which] ==> s.remove(which).contains(q),
        s.no_duplicates() ==> s.remove(which).no_duplicates() && !s.remove(which).contains(
            s[which],
        ),
{
    let t = s.remove(which);
    assert forall|q: Point| t.contains(q) implies s.contains(q) by {
        let i = choose|i: int| 0 <= i < t.len() && t[i] == q;
        if i < which {
            assert(s[i] == q);
        } else {
            assert(s[i + 1] == q);
        }
    }
    assert forall|q: Point| s.contains(q) && q != s[which] implies t.contains(q) by {
        let i = choose|i: int| 0 <= i < s.len() && s[i] == q;
        if i < which {
            assert(t[i] == q);
        } else {
            assert(t[i - 1] == q);
        }
    }
    if s.no_duplicates() {
        assert forall|i: int, j: int| 0 <= i < t.len() && 0 <= j < t.len() && i != j implies t[i]
            != t[j] by {
            let i2 = if i < which { i } else { i + 1 };
            let j2 = if j < which { j } else { j + 1 };
            assert(t[i] == s[i2] && t[j] == s[j2]);
        }
        if t.contains(s[which]) {
            let i = choose|i: int| 0 <= i < t.len() && t[i] == s[which];
            let i2 = if i < which { i } else { i + 1 };
            assert(t[i] == s[i2]);
        }
    }
}

} // verus!

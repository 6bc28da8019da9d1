//! The order and the sameness of paths, as `camino` has them: paths are held
//! against each other component by component, so that `a/b` stands before
//! `a.c`, and `a//b` is the same path as `a/b`.

use camino::Utf8Path;
use core::cmp::Ordering;
use vstd::prelude::*;

verus! {

/// How one path stands to another.
#[derive(Clone, Copy, Debug, PartialEq, Eq, Structural)]
pub enum PathOrder {
    Before,
    Same,
    After,
}

/// How `camino` orders the path `a` against the path `b`.
pub uninterp spec fn compared_paths(a: Seq<char>, b: Seq<char>) -> PathOrder;

/// The order seen from the other side.
pub open spec fn flipped(order: PathOrder) -> PathOrder {
    match order {
        PathOrder::Before => PathOrder::After,
        PathOrder::Same => PathOrder::Same,
        PathOrder::After => PathOrder::Before,
    }
}

/// Whether the path `a` stands before `b` or is the same path.
pub open spec fn path_le(a: Seq<char>, b: Seq<char>) -> bool {
    compared_paths(a, b) != PathOrder::After
}

/// Whether `a` and `b` are the same path: the same text, or texts that differ
/// in nothing that the comparison looks at.
pub open spec fn same_path(a: Seq<char>, b: Seq<char>) -> bool {
    a == b || compared_paths(a, b) == PathOrder::Same
}

/// The comparison is that of a total order: seen from the other side it gives
/// the opposite, and what is at most a second path that is at most a third is
/// at most the third.
pub open spec fn path_order_laws() -> bool {
    &&& forall|a: Seq<char>, b: Seq<char>| #[trigger]
        compared_paths(b, a) == flipped(compared_paths(a, b))
    &&& forall|a: Seq<char>, b: Seq<char>, c: Seq<char>|
        #![trigger path_le(a, b), path_le(b, c)]
        path_le(a, b) && path_le(b, c) ==> path_le(a, c)
}

/// Whether `order`, as the comparison of `a` with `b`, is that of a total
/// order: the comparison of `b` with `a` gives the opposite, and the laws of
/// the order hold.
pub open spec fn in_total_order(order: PathOrder, a: Seq<char>, b: Seq<char>) -> bool {
    compared_paths(b, a) == flipped(order) && path_order_laws()
}

/// `Utf8Path::cmp` of `camino`, on the two texts as paths (`Utf8Path::new`):
/// the lexicographic comparison of their components. It is the comparison of
/// an `Ord`, a total order.
#[verifier::external_body]
fn compare_paths(a: &str, b: &str) -> (r: PathOrder)
    ensures
        r == compared_paths(a@, b@),
        in_total_order(r, a@, b@),
{
    match Utf8Path::new(a).cmp(Utf8Path::new(b)) {
        Ordering::Less => PathOrder::Before,
        Ordering::Equal => PathOrder::Same,
        Ordering::Greater => PathOrder::After,
    }
}

/// Of two paths one is at most the other.
pub proof fn lemma_path_total(a: Seq<char>, b: Seq<char>)
    requires
        path_order_laws(),
    ensures
        path_le(a, b) || path_le(b, a),
{
    assert(compared_paths(b, a) == flipped(compared_paths(a, b)));
}

/// The order of paths is transitive.
pub proof fn lemma_path_transitive(a: Seq<char>, b: Seq<char>, c: Seq<char>)
    requires
        path_order_laws(),
        path_le(a, b),
        path_le(b, c),
    ensures
        path_le(a, c),
{
}

/// Paths that are at most each other are the same path, and the other way
/// round.
pub proof fn lemma_same_path(a: Seq<char>, b: Seq<char>)
    requires
        path_order_laws(),
    ensures
        same_path(a, b) <==> path_le(a, b) && path_le(b, a),
        same_path(a, b) <==> same_path(b, a),
{
    assert(compared_paths(b, a) == flipped(compared_paths(a, b)));
    assert(compared_paths(a, a) == flipped(compared_paths(a, a)));
}

/// Two paths that are the same as a third are the same.
pub proof fn lemma_same_path_joins(a: Seq<char>, b: Seq<char>, p: Seq<char>)
    requires
        path_order_laws(),
        same_path(a, p),
        same_path(b, p),
    ensures
        same_path(a, b),
{
    lemma_same_path(a, p);
    lemma_same_path(b, p);
    lemma_same_path(a, b);
    lemma_path_transitive(a, p, b);
    lemma_path_transitive(b, p, a);
}

/// What stands before a path that is at most a third stands before the third.
pub proof fn lemma_before_then_le(a: Seq<char>, b: Seq<char>, c: Seq<char>)
    requires
        path_order_laws(),
        compared_paths(a, b) == PathOrder::Before,
        path_le(b, c),
    ensures
        compared_paths(a, c) == PathOrder::Before,
{
    lemma_path_transitive(a, b, c);
    assert(compared_paths(c, a) == flipped(compared_paths(a, c)));
    assert(compared_paths(b, a) == flipped(compared_paths(a, b)));
    if compared_paths(a, c) == PathOrder::Same {
        assert(path_le(c, a));
        lemma_path_transitive(b, c, a);
    }
}

/// How the path `a` stands to the path `b`.
pub fn path_order(a: &str, b: &str) -> (r: PathOrder)
    ensures
        r == compared_paths(a@, b@),
        path_order_laws(),
{
    compare_paths(a, b)
}

/// Whether the path `a` stands before `b` or is the same path.
pub fn path_at_most(a: &str, b: &str) -> (r: bool)
    ensures
        r == path_le(a@, b@),
        path_order_laws(),
{
    match compare_paths(a, b) {
        PathOrder::After => false,
        _ => true,
    }
}

/// Whether `a` and `b` are the same path.
pub fn paths_same(a: &str, b: &str) -> (r: bool)
    ensures
        r == same_path(a@, b@),
        path_order_laws(),
{
    let order = compare_paths(a, b);
    proof {
        lemma_same_path(a@, b@);
    }
    match order {
        PathOrder::Same => true,
        _ => false,
    }
}

} // verus!

use crate::error::ListError;
use crate::ring::{is_ring, lemma_unlink_keeps_ring};
use vstd::prelude::*;

verus! {

/// The two links that a record carries while it is a member of a ring.
#[derive(Clone, Copy, Debug, PartialEq, Eq, Structural)]
pub struct Node {
    /// Handle of the member before this one.
    pub prev: usize,
    /// Handle of the member after this one.
    pub next: usize,
}

/// The link relation among the records of one arena: slot `i` holds the
/// links of the record with handle `i`. The records themselves are not kept
/// here.
///
/// Any contents are allowed, and one arena may hold several rings. Whoever
/// fills the arena sets up the rings, heads included; a slot that belongs to
/// none of them holds stale links.
#[derive(Debug)]
pub struct IntrusiveList {
    pub nodes: Vec<Node>,
}

impl View for IntrusiveList {
    type V = Seq<Node>;

    open spec fn view(&self) -> Seq<Node> {
        self.nodes@
    }
}

/// Slot `n` exists, both of its links name slots, and those two neighbours
/// point back at `n`.
pub open spec fn linked(s: Seq<Node>, n: usize) -> bool {
    &&& n < s.len()
    &&& s[n as int].prev < s.len()
    &&& s[n as int].next < s.len()
    &&& s[s[n as int].prev as int].next == n
    &&& s[s[n as int].next as int].prev == n
}

/// The arena `s` with `n` spliced out: the slot before `n` now points
/// forward to the slot after `n`, the slot after `n` points back to the slot
/// before it, and every other link is as it was.
pub open spec fn unlink(s: Seq<Node>, n: usize) -> Seq<Node> {
    Seq::new(
        s.len(),
        |i: int|
            Node {
                prev: if i == s[n as int].next {
                    s[n as int].prev
                } else {
                    s[i].prev
                },
                next: if i == s[n as int].prev {
                    s[n as int].next
                } else {
                    s[i].next
                },
            },
    )
}

/// Splicing `n` out leaves every other linked slot linked.
pub proof fn lemma_unlink_keeps_others_linked(s: Seq<Node>, n: usize, m: usize)
    requires
        linked(s, n),
        linked(s, m),
        m != n,
    ensures
        linked(unlink(s, n), m),
{
}

/// Once `n` is spliced out of a ring that had another member, `n` is no
/// longer linked: its neighbours have stopped pointing at it.
pub proof fn lemma_unlink_detaches(s: Seq<Node>, n: usize)
    requires
        linked(s, n),
        s[n as int].next != n,
    ensures
        !linked(unlink(s, n), n),
{
}

/// Tells whether `node` is linked: whether it may be handed to [`remove`].
pub fn is_linked(list: &IntrusiveList, node: usize) -> (b: bool)
    ensures
        b == linked(list@, node),
{
    let len: usize = list.nodes.len();
    if node >= len {
        return false;
    }
    let prev: usize = list.nodes[node].prev;
    let next: usize = list.nodes[node].next;
    prev < len && next < len && list.nodes[prev].next == node && list.nodes[next].prev == node
}

/// Splices `node` out of the ring it is a member of, in constant time.
///
/// Only the `next` link of the member before `node` and the `prev` link of
/// the member after it are written. The links of `node` itself are left as
/// they were, and are stale from then on. Every other linked slot stays
/// linked, and the ring that `node` was a member of is a ring of the other
/// members, in the order they had.
pub fn remove(list: &mut IntrusiveList, node: usize)
    requires
        linked(old(list)@, node),
    ensures
        final(list)@ == unlink(old(list)@, node),
        final(list)@.len() == old(list)@.len(),
        final(list)@[old(list)@[node as int].prev as int].next == old(list)@[node as int].next,
        final(list)@[old(list)@[node as int].next as int].prev == old(list)@[node as int].prev,
        final(list)@[node as int] == old(list)@[node as int],
        forall|i: int|
            0 <= i < old(list)@.len() && i != old(list)@[node as int].prev
                && i != old(list)@[node as int].next ==> final(list)@[i] == old(list)@[i],
        forall|m: usize|
            #![trigger linked(old(list)@, m)]
            #![trigger linked(final(list)@, m)]
            m != node && linked(old(list)@, m) ==> linked(final(list)@, m),
        old(list)@[node as int].next != node ==> !linked(final(list)@, node),
        forall|order: Seq<usize>, k: int|
            #![trigger is_ring(final(list)@, order.remove(k))]
            is_ring(old(list)@, order) && 0 <= k < order.len() && order[k] == node ==> is_ring(
                final(list)@,
                order.remove(k),
            ),
{
    let prev: usize = list.nodes[node].prev;
    let next: usize = list.nodes[node].next;
    list.nodes[prev].next = next;
    list.nodes[next].prev = prev;
    assert(list@ =~= unlink(old(list)@, node));
    proof {
        assert forall|m: usize| m != node && linked(old(list)@, m) implies linked(list@, m) by {
            lemma_unlink_keeps_others_linked(old(list)@, node, m);
        }
        if old(list)@[node as int].next != node {
            lemma_unlink_detaches(old(list)@, node);
        }
        assert forall|order: Seq<usize>, k: int|
            is_ring(old(list)@, order) && 0 <= k < order.len() && order[k] == node implies is_ring(
            list@,
            order.remove(k),
        ) by {
            lemma_unlink_keeps_ring(old(list)@, order, k);
        }
    }
}

/// Splices `node` out of its ring if it is linked, and reports
/// [`ListError::NotLinked`] without touching the arena if it is not.
pub fn try_remove(list: &mut IntrusiveList, node: usize) -> (r: Result<(), ListError>)
    ensures
        linked(old(list)@, node) ==> r is Ok && final(list)@ == unlink(old(list)@, node),
        !linked(old(list)@, node) ==> r == Err::<(), ListError>(ListError::NotLinked)
            && final(list)@ == old(list)@,
{
    if is_linked(list, node) {
        remove(list, node);
        Ok(())
    } else {
        Err(ListError::NotLinked)
    }
}

} // verus!

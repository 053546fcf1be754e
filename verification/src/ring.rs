use crate::list::{linked, unlink, Node};
use vstd::arithmetic::div_mod::{
    lemma_fundamental_div_mod, lemma_fundamental_div_mod_converse, lemma_mod_bound,
    lemma_small_mod,
};
use vstd::prelude::*;

verus! {

/// The position that follows position `i` on a ring of `n` positions.
pub open spec fn after(i: int, n: int) -> int {
    if i + 1 == n {
        0
    } else {
        i + 1
    }
}

/// The position that precedes position `i` on a ring of `n` positions.
pub open spec fn before(i: int, n: int) -> int {
    if i == 0 {
        n - 1
    } else {
        i - 1
    }
}

/// The member at position `i` of `order` names a slot of `s`, its `next`
/// link names the member at the following position and its `prev` link the
/// member at the preceding one.
pub open spec fn ring_at(s: Seq<Node>, order: Seq<usize>, i: int) -> bool {
    &&& order[i] < s.len()
    &&& s[order[i] as int].next == order[after(i, order.len() as int)]
    &&& s[order[i] as int].prev == order[before(i, order.len() as int)]
}

/// `order` lists, each once and in `next` direction, the members of one ring
/// of the arena `s`. A sentinel head, where there is one, is a member like
/// any other; a ring of one member points to itself both ways.
pub open spec fn is_ring(s: Seq<Node>, order: Seq<usize>) -> bool {
    &&& order.no_duplicates()
    &&& forall|i: int| 0 <= i < order.len() ==> #[trigger] ring_at(s, order, i)
}

/// The slot reached from `start` by following `next` links `steps` times.
pub open spec fn walk_next(s: Seq<Node>, start: usize, steps: nat) -> usize
    decreases steps,
{
    if steps == 0 {
        start
    } else {
        s[walk_next(s, start, (steps - 1) as nat) as int].next
    }
}

/// The slot reached from `start` by following `prev` links `steps` times.
pub open spec fn walk_prev(s: Seq<Node>, start: usize, steps: nat) -> usize
    decreases steps,
{
    if steps == 0 {
        start
    } else {
        s[walk_prev(s, start, (steps - 1) as nat) as int].prev
    }
}

/// One step forward or backward on a ring of `n` positions is one more or
/// one less modulo `n`.
proof fn lemma_step_mod(x: int, n: int)
    requires
        0 < n,
    ensures
        (x + 1) % n == after(x % n, n),
        (x - 1) % n == before(x % n, n),
{
    let q = x / n;
    let r = x % n;
    lemma_fundamental_div_mod(x, n);
    lemma_mod_bound(x, n);
    assert(x == q * n + r) by (nonlinear_arith)
        requires
            x == n * q + r,
    ;
    if r + 1 == n {
        assert(x + 1 == (q + 1) * n + 0) by (nonlinear_arith)
            requires
                x == q * n + r,
                r + 1 == n,
        ;
        lemma_fundamental_div_mod_converse(x + 1, n, q + 1, 0);
    } else {
        lemma_fundamental_div_mod_converse(x + 1, n, q, r + 1);
    }
    if r == 0 {
        assert(x - 1 == (q - 1) * n + (n - 1)) by (nonlinear_arith)
            requires
                x == q * n + r,
                r == 0,
        ;
        lemma_fundamental_div_mod_converse(x - 1, n, q - 1, n - 1);
    } else {
        lemma_fundamental_div_mod_converse(x - 1, n, q, r - 1);
    }
}

/// Every member of a ring is linked, so each of them may be spliced out.
pub proof fn lemma_member_is_linked(s: Seq<Node>, order: Seq<usize>, k: int)
    requires
        is_ring(s, order),
        0 <= k < order.len(),
    ensures
        linked(s, order[k]),
{
    let n = order.len() as int;
    assert(ring_at(s, order, k));
    assert(ring_at(s, order, after(k, n)));
    assert(ring_at(s, order, before(k, n)));
}

/// Splicing a member out of a ring leaves a ring of the other members, in
/// the order they had.
pub proof fn lemma_unlink_keeps_ring(s: Seq<Node>, order: Seq<usize>, k: int)
    requires
        is_ring(s, order),
        0 <= k < order.len(),
    ensures
        is_ring(unlink(s, order[k]), order.remove(k)),
{
    let n = order.len() as int;
    let gone = order[k];
    let t = unlink(s, gone);
    let rest = order.remove(k);
    assert(ring_at(s, order, k));
    assert forall|i: int| 0 <= i < rest.len() implies #[trigger] ring_at(t, rest, i) by {
        let at = if i < k {
            i
        } else {
            i + 1
        };
        assert(rest[i] == order[at]);
        assert(ring_at(s, order, at));
        let up = after(i, n - 1);
        let down = before(i, n - 1);
        assert(rest[up] == order[if up < k {
            up
        } else {
            up + 1
        }]);
        assert(rest[down] == order[if down < k {
            down
        } else {
            down + 1
        }]);
    }
}

/// On a ring, `steps` steps along `next` from the member at position `i`
/// end at the member at position `(i + steps) % n`.
pub proof fn lemma_walk_next_on_ring(s: Seq<Node>, order: Seq<usize>, i: int, steps: nat)
    requires
        is_ring(s, order),
        0 <= i < order.len(),
    ensures
        0 <= (i + steps) % (order.len() as int) < order.len(),
        walk_next(s, order[i], steps) == order[(i + steps) % (order.len() as int)],
    decreases steps,
{
    let n = order.len() as int;
    lemma_mod_bound(i + steps, n);
    if steps == 0 {
        lemma_small_mod(i as nat, n as nat);
    } else {
        lemma_walk_next_on_ring(s, order, i, (steps - 1) as nat);
        let at = (i + steps - 1) % n;
        assert(ring_at(s, order, at));
        lemma_step_mod(i + steps - 1, n);
    }
}

/// On a ring, `steps` steps along `prev` from the member at position `i`
/// end at the member at position `(i - steps) % n`.
pub proof fn lemma_walk_prev_on_ring(s: Seq<Node>, order: Seq<usize>, i: int, steps: nat)
    requires
        is_ring(s, order),
        0 <= i < order.len(),
    ensures
        0 <= (i - steps) % (order.len() as int) < order.len(),
        walk_prev(s, order[i], steps) == order[(i - steps) % (order.len() as int)],
    decreases steps,
{
    let n = order.len() as int;
    lemma_mod_bound(i - steps, n);
    if steps == 0 {
        lemma_small_mod(i as nat, n as nat);
    } else {
        lemma_walk_prev_on_ring(s, order, i, (steps - 1) as nat);
        let at = (i - steps + 1) % n;
        assert(ring_at(s, order, at));
        lemma_step_mod(i - steps + 1, n);
    }
}

/// On a ring of `n` members, walking `next` links from a member comes back
/// to it after exactly `n` steps and not before, and walking `prev` links
/// visits the same members in the opposite order.
pub proof fn lemma_ring_closes(s: Seq<Node>, order: Seq<usize>, i: int)
    requires
        is_ring(s, order),
        0 <= i < order.len(),
    ensures
        walk_next(s, order[i], order.len()) == order[i],
        forall|j: nat| 0 < j < order.len() ==> #[trigger] walk_next(s, order[i], j) != order[i],
        forall|j: nat|
            j <= order.len() ==> #[trigger] walk_prev(s, order[i], j) == walk_next(
                s,
                order[i],
                (order.len() - j) as nat,
            ),
{
    let n = order.len() as int;
    lemma_walk_next_on_ring(s, order, i, n as nat);
    lemma_fundamental_div_mod_converse(i + n, n, 1, i);
    assert forall|j: nat| 0 < j < n implies #[trigger] walk_next(s, order[i], j) != order[i] by {
        lemma_walk_next_on_ring(s, order, i, j);
        if i + j < n {
            lemma_small_mod((i + j) as nat, n as nat);
        } else {
            lemma_fundamental_div_mod_converse(i + j, n, 1, i + j - n);
        }
    }
    assert forall|j: nat| j <= n implies #[trigger] walk_prev(s, order[i], j) == walk_next(
        s,
        order[i],
        (n - j) as nat,
    ) by {
        lemma_walk_prev_on_ring(s, order, i, j);
        lemma_walk_next_on_ring(s, order, i, (n - j) as nat);
        if j <= i {
            lemma_small_mod((i - j) as nat, n as nat);
            lemma_fundamental_div_mod_converse(i + n - j, n, 1, i - j);
        } else {
            lemma_fundamental_div_mod_converse(i - j, n, -1, i - j + n);
            lemma_small_mod((i + n - j) as nat, n as nat);
        }
    }
}

/// After any one member of a ring of `n` members is spliced out, walking
/// `next` links from any member that is left comes back to it after exactly
/// `n - 1` steps, walking `prev` links visits the same members in the
/// opposite order, and neither walk meets the member that left.
pub proof fn lemma_unlink_closes(s: Seq<Node>, order: Seq<usize>, k: int, m: usize)
    requires
        is_ring(s, order),
        0 <= k < order.len(),
        order.contains(m),
        m != order[k],
    ensures
        walk_next(unlink(s, order[k]), m, (order.len() - 1) as nat) == m,
        forall|j: nat|
            0 < j < order.len() - 1 ==> #[trigger] walk_next(unlink(s, order[k]), m, j) != m,
        forall|j: nat|
            j <= order.len() - 1 ==> #[trigger] walk_prev(unlink(s, order[k]), m, j) == walk_next(
                unlink(s, order[k]),
                m,
                (order.len() - 1 - j) as nat,
            ),
        forall|j: nat| #[trigger] walk_next(unlink(s, order[k]), m, j) != order[k],
        forall|j: nat| #[trigger] walk_prev(unlink(s, order[k]), m, j) != order[k],
{
    let t = unlink(s, order[k]);
    let rest = order.remove(k);
    let at = choose|at: int| 0 <= at < order.len() && order[at] == m;
    let i = if at < k {
        at
    } else {
        at - 1
    };
    assert(rest[i] == m);
    lemma_unlink_keeps_ring(s, order, k);
    lemma_ring_closes(t, rest, i);
    assert forall|x: int| 0 <= x < rest.len() implies rest[x] != order[k] by {
        assert(rest[x] == order[if x < k {
            x
        } else {
            x + 1
        }]);
    }
    assert forall|j: nat| #[trigger] walk_next(t, m, j) != order[k] by {
        lemma_walk_next_on_ring(t, rest, i, j);
    }
    assert forall|j: nat| #[trigger] walk_prev(t, m, j) != order[k] by {
        lemma_walk_prev_on_ring(t, rest, i, j);
    }
}

/// When the only other member of a ring is its head, splicing the member out
/// leaves the head pointing to itself both ways: the empty ring.
pub proof fn lemma_last_member_leaves_empty_ring(s: Seq<Node>, head: usize, n: usize)
    requires
        linked(s, n),
        s[n as int].prev == head,
        s[n as int].next == head,
    ensures
        unlink(s, n)[head as int].next == head,
        unlink(s, n)[head as int].prev == head,
        is_ring(unlink(s, n), seq![head]),
{
    let t = unlink(s, n);
    assert(ring_at(t, seq![head], 0));
}

} // verus!

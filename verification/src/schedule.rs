//! The order in which passes run.

use vstd::prelude::*;
use crate::pass::{desc_views, reads_written, same_use, Pass, PassView};
use crate::scope::FrameScope;

verus! {

/// The indices below `n` that satisfy `pred`, in ascending order.
pub open spec fn indices_where(n: nat, pred: spec_fn(int) -> bool) -> Seq<usize>
    decreases n,
{
    if n == 0 {
        Seq::empty()
    } else {
        let below = indices_where((n - 1) as nat, pred);
        if pred(n - 1) {
            below.push((n - 1) as usize)
        } else {
            below
        }
    }
}

/// How many entries of `deps` are still waited for once the nodes of `done`
/// are done.
pub open spec fn waiting(deps: Seq<usize>, done: Seq<usize>) -> int {
    deps.len() - done.filter(|d: usize| deps.contains(d)).len()
}

/// The nodes that wait for nothing from the start.
pub open spec fn is_source(deps: Seq<Seq<usize>>) -> spec_fn(int) -> bool {
    |j: int| deps[j].len() == 0
}

/// The nodes that the last one of `done` was the last to hold back.
pub open spec fn is_released(deps: Seq<Seq<usize>>, done: Seq<usize>) -> spec_fn(int) -> bool {
    |j: int| deps[j].contains(done.last()) && waiting(deps[j], done) == 0
}

/// The order in which nodes are taken from `stack` when the one pushed last is
/// taken first and each node that is taken pushes, in ascending order, those
/// that it was the last to hold back. `done` are the nodes taken so far.
pub open spec fn take_from(deps: Seq<Seq<usize>>, stack: Seq<usize>, done: Seq<usize>) -> Seq<usize>
    decreases deps.len() - done.len(),
{
    if stack.len() == 0 || done.len() >= deps.len() {
        done
    } else {
        let now = done.push(stack.last());
        take_from(
            deps,
            stack.drop_last() + indices_where(deps.len(), is_released(deps, now)),
            now,
        )
    }
}

/// The order of the nodes whose dependencies are `deps`.
pub open spec fn execution_order(deps: Seq<Seq<usize>>) -> Seq<usize> {
    take_from(deps, indices_where(deps.len(), is_source(deps)), Seq::empty())
}

/// The dependency lists of `dependencies` as sequences.
pub open spec fn lists(dependencies: Seq<Vec<usize>>) -> Seq<Seq<usize>> {
    Seq::new(dependencies.len(), |j: int| dependencies[j]@)
}

proof fn lemma_indices_where(n: nat, pred: spec_fn(int) -> bool)
    requires
        n <= usize::MAX,
    ensures
        indices_where(n, pred).len() <= n,
        indices_where(n, pred).no_duplicates(),
        forall|x: usize| #[trigger]
            indices_where(n, pred).contains(x) <==> x < n && pred(x as int),
    decreases n,
{
    let all = indices_where(n, pred);
    if n > 0 {
        let below = indices_where((n - 1) as nat, pred);
        lemma_indices_where((n - 1) as nat, pred);
        assert forall|x: usize| #[trigger] all.contains(x) <==> x < n && pred(x as int) by {
            if below.contains(x) {
                let i = below.index_of(x);
                assert(all[i] == x);
            }
            if pred(n - 1) {
                assert(all[all.len() - 1] == n - 1);
            }
            if all.contains(x) && x != n - 1 {
                let i = all.index_of(x);
                assert(below[i] == x);
            }
        }
        assert(!below.contains((n - 1) as usize));
    }
}

/// What holds whenever a node is about to be taken.
spec fn consistent(deps: Seq<Seq<usize>>, stack: Seq<usize>, done: Seq<usize>) -> bool {
    &&& stack.no_duplicates()
    &&& done.no_duplicates()
    &&& forall|x: usize| #[trigger] stack.contains(x) ==> !done.contains(x)
    &&& forall|x: usize| #[trigger] stack.contains(x) ==> x < deps.len()
    &&& forall|x: usize| #[trigger] done.contains(x) ==> x < deps.len()
    &&& forall|j: usize|
        j < deps.len() ==> ((#[trigger] stack.contains(j) || done.contains(j)) <==> waiting(
            deps[j as int],
            done,
        ) == 0)
}

/// Nothing is waited for more often than it occurs: the nodes done that a node
/// depends on are at most as many as its dependencies, and exactly as many
/// only if each of those is done.
proof fn lemma_waiting(deps: Seq<usize>, done: Seq<usize>)
    requires
        done.no_duplicates(),
    ensures
        waiting(deps, done) >= 0,
        waiting(deps, done) == 0 ==> forall|d: usize| #[trigger]
            deps.contains(d) ==> done.contains(d),
        deps.no_duplicates() && (forall|d: usize| #[trigger]
            deps.contains(d) ==> done.contains(d)) ==> waiting(deps, done) == 0,
{
    broadcast use vstd::seq_lib::group_filter_ensures;

    let met = done.filter(|d: usize| deps.contains(d));
    lemma_filter_no_duplicates(done, |d: usize| deps.contains(d));
    met.unique_seq_to_set();
    deps.lemma_cardinality_of_set();
    assert forall|x: usize| #[trigger] met.to_set().contains(x) implies deps.to_set().contains(
        x,
    ) by {
        let i = met.index_of(x);
        assert(met.contains(x));
        done.lemma_filter_pred(|d: usize| deps.contains(d), i);
    }
    vstd::set_lib::lemma_len_subset(met.to_set(), deps.to_set());
    if waiting(deps, done) == 0 {
        vstd::set_lib::lemma_subset_equality(met.to_set(), deps.to_set());
        assert forall|d: usize| #[trigger] deps.contains(d) implies done.contains(d) by {
            assert(deps.to_set().contains(d));
            assert(met.contains(d));
            let i = met.index_of(d);
            assert(met[i] == d);
            lemma_filter_within(done, |d: usize| deps.contains(d), d);
        }
    }
    if deps.no_duplicates() && (forall|d: usize| #[trigger]
        deps.contains(d) ==> done.contains(d)) {
        deps.unique_seq_to_set();
        assert forall|x: usize| #[trigger] deps.to_set().contains(x) implies met.to_set().contains(
            x,
        ) by {
            assert(deps.contains(x));
            assert(done.contains(x));
            let i = done.index_of(x);
            done.lemma_filter_contains(|d: usize| deps.contains(d), i);
        }
        assert(met.to_set() =~= deps.to_set());
    }
}

proof fn lemma_filter_within(s: Seq<usize>, pred: spec_fn(usize) -> bool, x: usize)
    requires
        s.filter(pred).contains(x),
    ensures
        s.contains(x),
    decreases s.len(),
{
    reveal(Seq::filter);
    if s.len() > 0 {
        let rest = s.drop_last();
        if rest.filter(pred).contains(x) {
            lemma_filter_within(rest, pred, x);
            let i = rest.index_of(x);
            assert(s[i] == x);
        } else {
            let i = s.filter(pred).index_of(x);
            assert(s.filter(pred)[i] == x);
            if i < rest.filter(pred).len() {
                assert(rest.filter(pred)[i] == x);
            }
            assert(s[s.len() - 1] == x);
        }
    }
}

proof fn lemma_filter_no_duplicates(s: Seq<usize>, pred: spec_fn(usize) -> bool)
    requires
        s.no_duplicates(),
    ensures
        s.filter(pred).no_duplicates(),
    decreases s.len(),
{
    reveal(Seq::filter);
    if s.len() > 0 {
        let rest = s.drop_last();
        lemma_filter_no_duplicates(rest, pred);
        if rest.filter(pred).contains(s.last()) {
            lemma_filter_within(rest, pred, s.last());
            let i = rest.index_of(s.last());
            assert(s[i] == s[s.len() - 1]);
        }
    }
}

/// Distinct numbers below `n` are at most `n` many.
proof fn lemma_distinct_below(s: Seq<usize>, n: nat)
    requires
        n <= usize::MAX,
        s.no_duplicates(),
        forall|x: usize| #[trigger] s.contains(x) ==> x < n,
    ensures
        s.len() <= n,
        s.len() == n ==> forall|x: usize| x < n ==> #[trigger] s.contains(x),
{
    let everything = |j: int| true;
    let all = indices_where(n, everything);
    lemma_indices_where(n, everything);
    s.unique_seq_to_set();
    all.unique_seq_to_set();
    assert forall|x: usize| #[trigger] s.to_set().contains(x) implies all.to_set().contains(x) by {
        assert(s.contains(x));
        assert(all.contains(x));
    }
    vstd::set_lib::lemma_len_subset(s.to_set(), all.to_set());
    if s.len() == n {
        vstd::set_lib::lemma_subset_equality(s.to_set(), all.to_set());
        assert forall|x: usize| x < n implies #[trigger] s.contains(x) by {
            assert(all.contains(x));
            assert(s.to_set().contains(x));
        }
    }
}

/// A node that is taken is one less to wait for, for those that depend on it.
proof fn lemma_waiting_push(deps: Seq<usize>, done: Seq<usize>, node: usize)
    ensures
        waiting(deps, done.push(node)) == waiting(deps, done) - (if deps.contains(node) {
            1int
        } else {
            0int
        }),
{
    done.lemma_filter_len_push(|d: usize| deps.contains(d), node);
}

proof fn lemma_take(deps: Seq<Seq<usize>>, stack: Seq<usize>, done: Seq<usize>)
    requires
        deps.len() <= usize::MAX,
        consistent(deps, stack, done),
        stack.len() > 0,
    ensures
        done.len() < deps.len(),
        consistent(
            deps,
            stack.drop_last() + indices_where(
                deps.len(),
                is_released(deps, done.push(stack.last())),
            ),
            done.push(stack.last()),
        ),
{
    let node = stack.last();
    let now = done.push(node);
    let released = indices_where(deps.len(), is_released(deps, now));
    let rest = stack.drop_last();
    let next = rest + released;
    lemma_indices_where(deps.len(), is_released(deps, now));
    assert(stack[stack.len() - 1] == node);
    assert(stack.contains(node));
    assert forall|x: usize| #[trigger] now.contains(x) <==> done.contains(x) || x == node by {
        if done.contains(x) {
            assert(now[done.index_of(x)] == x);
        }
        assert(now[done.len() as int] == node);
    }
    assert(now.no_duplicates());
    lemma_distinct_below(now, deps.len());
    assert forall|x: usize| #[trigger] rest.contains(x) <==> stack.contains(x) && x != node by {
        if rest.contains(x) {
            let i = rest.index_of(x);
            assert(stack[i] == x);
        }
        if stack.contains(x) && x != node {
            let i = stack.index_of(x);
            assert(rest[i] == x);
        }
    }
    assert forall|x: usize| #[trigger]
        next.contains(x) <==> rest.contains(x) || released.contains(x) by {
        if rest.contains(x) {
            assert(next[rest.index_of(x)] == x);
        }
        if released.contains(x) {
            assert(next[rest.len() + released.index_of(x)] == x);
        }
        if next.contains(x) {
            let i = next.index_of(x);
            if i < rest.len() {
                assert(rest[i] == x);
            } else {
                assert(released[i - rest.len()] == x);
            }
        }
    }
    assert forall|j: usize| j < deps.len() implies waiting(deps[j as int], now) >= 0 && waiting(
        deps[j as int],
        now,
    ) == #[trigger] waiting(deps[j as int], done) - (if deps[j as int].contains(node) {
        1int
    } else {
        0int
    }) by {
        lemma_waiting(deps[j as int], now);
        lemma_waiting_push(deps[j as int], done, node);
    }
    assert forall|x: usize| #[trigger] released.contains(x) implies !stack.contains(x)
        && !done.contains(x) by {
        assert(deps[x as int].contains(node));
        assert(waiting(deps[x as int], done) == 1);
    }
    assert(next.no_duplicates()) by {
        assert(rest.no_duplicates());
        assert forall|a: int, b: int| 0 <= a < b < next.len() implies next[a] != next[b] by {
            if b < rest.len() {
                assert(rest[a] != rest[b]);
            } else if a >= rest.len() {
                assert(released[a - rest.len()] != released[b - rest.len()]);
            } else {
                assert(rest.contains(rest[a]));
                assert(released.contains(released[b - rest.len()]));
            }
        }
    }
    assert forall|x: usize| #[trigger] next.contains(x) implies !now.contains(x) by {
        if rest.contains(x) {
            assert(stack.contains(x));
        } else {
            assert(released.contains(x));
        }
    }
    assert forall|j: usize| j < deps.len() implies ((#[trigger] next.contains(j) || now.contains(j))
        <==> waiting(deps[j as int], now) == 0) by {
        let before = waiting(deps[j as int], done);
        assert(stack.contains(j) || done.contains(j) <==> before == 0);
        if before == 0 {
            assert(waiting(deps[j as int], now) == 0);
        } else {
            assert(next.contains(j) <==> released.contains(j));
            assert(!now.contains(j));
            assert(released.contains(j) <==> is_released(deps, now)(j as int));
        }
    }
}

proof fn lemma_start(deps: Seq<Seq<usize>>)
    requires
        deps.len() <= usize::MAX,
    ensures
        consistent(deps, indices_where(deps.len(), is_source(deps)), Seq::empty()),
{
    let stack = indices_where(deps.len(), is_source(deps));
    let done = Seq::<usize>::empty();
    lemma_indices_where(deps.len(), is_source(deps));
    assert forall|j: usize| j < deps.len() implies ((#[trigger] stack.contains(j) || done.contains(
        j,
    )) <==> waiting(deps[j as int], done) == 0) by {
        done.lemma_filter_len(|d: usize| deps[j as int].contains(d));
        assert(stack.contains(j) <==> is_source(deps)(j as int));
    }
}

fn contains_index(indices: &Vec<usize>, index: usize) -> (found: bool)
    ensures
        found == indices@.contains(index),
{
    for i in 0..indices.len()
        invariant
            forall|k: int| 0 <= k < i ==> indices@[k] != index,
    {
        if indices[i] == index {
            return true;
        }
    }
    false
}

impl<'a, C> FrameScope<'a, C> {
    /// Orders the nodes `0..dependencies.len()` such that each comes after those
    /// that it depends on. Nodes on a cycle, and those that depend on one, are
    /// left out.
    pub fn topological_sort(dependencies: &[Vec<usize>]) -> (order: Vec<usize>)
        ensures
            order@ == execution_order(lists(dependencies@)),
            order@.no_duplicates(),
            forall|k: int| 0 <= k < order@.len() ==> (#[trigger] order@[k]) < dependencies@.len(),
            forall|k: int, i: int|
                0 <= k < order@.len() && 0 <= i < dependencies@[order@[k] as int]@.len()
                    ==> order@.take(k).contains(#[trigger] dependencies@[order@[k] as int]@[i]),
            forall|j: int|
                0 <= j < dependencies@.len() && (#[trigger] dependencies@[j])@.no_duplicates() && (
                forall|i: int|
                    0 <= i < dependencies@[j]@.len() ==> order@.contains(
                        #[trigger] dependencies@[j]@[i],
                    )) ==> order@.contains(j as usize),
    {
        let n: usize = dependencies.len();
        let ghost deps = lists(dependencies@);
        let mut in_degree: Vec<usize> = Vec::with_capacity(n);
        let mut queue: Vec<usize> = Vec::new();
        for i in 0..n
            invariant
                n == dependencies@.len(),
                deps == lists(dependencies@),
                in_degree.len() == i,
                forall|k: int| 0 <= k < i ==> in_degree@[k] == deps[k].len(),
                queue@ == indices_where(i as nat, is_source(deps)),
        {
            let degree: usize = dependencies[i].len();
            in_degree.push(degree);
            if degree == 0 {
                queue.push(i);
            }
        }
        let mut order: Vec<usize> = Vec::with_capacity(n);
        proof {
            lemma_start(deps);
            assert forall|k: int| 0 <= k < n implies in_degree@[k] == #[trigger] waiting(
                deps[k],
                order@,
            ) by {
                order@.lemma_filter_len(|d: usize| deps[k].contains(d));
            }
        }
        while queue.len() > 0
            invariant
                n == dependencies@.len(),
                deps == lists(dependencies@),
                in_degree.len() == n,
                forall|k: int|
                    0 <= k < n ==> in_degree@[k] == #[trigger] waiting(deps[k], order@),
                consistent(deps, queue@, order@),
                take_from(deps, queue@, order@) == execution_order(deps),
            decreases n - order.len(),
        {
            let ghost stack = queue@;
            let ghost done = order@;
            proof {
                lemma_take(deps, stack, done);
            }
            let node: usize = queue.pop().unwrap();
            order.push(node);
            let ghost now = order@;
            for j in 0..n
                invariant
                    n == dependencies@.len(),
                    deps == lists(dependencies@),
                    in_degree.len() == n,
                    now == done.push(node),
                    now.no_duplicates(),
                    forall|k: int|
                        0 <= k < j ==> in_degree@[k] == #[trigger] waiting(deps[k], now),
                    forall|k: int|
                        j <= k < n ==> in_degree@[k] == #[trigger] waiting(deps[k], done),
                    queue@ == stack.drop_last() + indices_where(j as nat, is_released(deps, now)),
            {
                proof {
                    lemma_waiting(deps[j as int], now);
                    lemma_waiting_push(deps[j as int], done, node);
                }
                if contains_index(&dependencies[j], node) {
                    in_degree[j] = in_degree[j] - 1;
                    if in_degree[j] == 0 {
                        queue.push(j);
                    }
                }
            }
        }
        proof {
            law_order_is_topological(deps);
            assert forall|k: int| 0 <= k < order@.len() implies (#[trigger] order@[k])
                < dependencies@.len() by {
                assert(order@.contains(order@[k]));
            }
            assert forall|k: int, i: int|
                0 <= k < order@.len() && 0 <= i < dependencies@[order@[k] as int]@.len() implies
                order@.take(k).contains(#[trigger] dependencies@[order@[k] as int]@[i]) by {
                assert(order@.contains(order@[k]));
                assert(deps[order@[k] as int].contains(dependencies@[order@[k] as int]@[i]));
            }
            assert forall|j: int|
                0 <= j < dependencies@.len() && (#[trigger] dependencies@[j])@.no_duplicates() && (
                forall|i: int|
                    0 <= i < dependencies@[j]@.len() ==> order@.contains(
                        #[trigger] dependencies@[j]@[i],
                    )) implies order@.contains(j as usize) by {
                assert(deps[j] == dependencies@[j]@);
                assert forall|d: usize| #[trigger] deps[j].contains(d) implies order@.contains(
                    d,
                ) by {
                    assert(dependencies@[j]@[deps[j].index_of(d)] == d);
                }
                law_order_is_maximal(deps, j as usize);
            }
        }
        order
    }
}

/// Whether each node of `order` comes after those that it depends on.
pub open spec fn respects(deps: Seq<Seq<usize>>, order: Seq<usize>) -> bool {
    forall|k: int, d: usize|
        0 <= k < order.len() && #[trigger] deps[order[k] as int].contains(d) ==> order.take(
            k,
        ).contains(d)
}

proof fn lemma_take_from(deps: Seq<Seq<usize>>, stack: Seq<usize>, done: Seq<usize>)
    requires
        deps.len() <= usize::MAX,
        consistent(deps, stack, done),
        respects(deps, done),
    ensures
        consistent(deps, Seq::empty(), take_from(deps, stack, done)),
        respects(deps, take_from(deps, stack, done)),
    decreases deps.len() - done.len(),
{
    if stack.len() == 0 {
        assert(stack =~= Seq::empty());
    } else {
        lemma_take(deps, stack, done);
        let node = stack.last();
        let now = done.push(node);
        assert(stack.contains(node));
        lemma_waiting(deps[node as int], done);
        assert forall|k: int, d: usize|
            0 <= k < now.len() && #[trigger] deps[now[k] as int].contains(d) implies now.take(
            k,
        ).contains(d) by {
            if k < done.len() {
                assert(deps[done[k] as int].contains(d));
                assert(now.take(k) =~= done.take(k));
            } else {
                assert(now.take(k) =~= done);
            }
        }
        lemma_take_from(
            deps,
            stack.drop_last() + indices_where(deps.len(), is_released(deps, now)),
            now,
        );
    }
}

/// The order names no node twice and only nodes that exist, and each node
/// comes after all those that it depends on.
pub proof fn law_order_is_topological(deps: Seq<Seq<usize>>)
    requires
        deps.len() <= usize::MAX,
    ensures
        execution_order(deps).no_duplicates(),
        forall|x: usize| #[trigger] execution_order(deps).contains(x) ==> x < deps.len(),
        execution_order(deps).len() <= deps.len(),
        respects(deps, execution_order(deps)),
{
    lemma_start(deps);
    lemma_take_from(deps, indices_where(deps.len(), is_source(deps)), Seq::empty());
    lemma_distinct_below(execution_order(deps), deps.len());
}

/// A node that names no dependency twice is left out only for something that it
/// waits for: where all that it depends on is in the order, so is the node.
pub proof fn law_order_is_maximal(deps: Seq<Seq<usize>>, node: usize)
    requires
        deps.len() <= usize::MAX,
        node < deps.len(),
        deps[node as int].no_duplicates(),
        forall|d: usize| #[trigger]
            deps[node as int].contains(d) ==> execution_order(deps).contains(d),
    ensures
        execution_order(deps).contains(node),
{
    lemma_start(deps);
    lemma_take_from(deps, indices_where(deps.len(), is_source(deps)), Seq::empty());
    lemma_waiting(deps[node as int], execution_order(deps));
    assert(!Seq::<usize>::empty().contains(node));
}

/// A node that names a dependency twice is never in the order: the second one is
/// waited for in vain.
pub proof fn law_repeated_dependency_is_never_met(deps: Seq<Seq<usize>>, node: usize)
    requires
        deps.len() <= usize::MAX,
        node < deps.len(),
        !deps[node as int].no_duplicates(),
    ensures
        !execution_order(deps).contains(node),
{
    lemma_start(deps);
    lemma_take_from(deps, indices_where(deps.len(), is_source(deps)), Seq::empty());
    let list = deps[node as int];
    let order = execution_order(deps);
    if order.contains(node) {
        assert(!Seq::<usize>::empty().contains(node));
        assert(waiting(list, order) == 0);
        lemma_waiting(list, order);
        let met = order.filter(|d: usize| list.contains(d));
        lemma_filter_no_duplicates(order, |d: usize| list.contains(d));
        met.unique_seq_to_set();
        assert forall|x: usize| #[trigger] met.to_set().contains(x) implies list.to_set().contains(
            x,
        ) by {
            assert(met.contains(x));
            order.lemma_filter_pred(|d: usize| list.contains(d), met.index_of(x));
        }
        vstd::set_lib::lemma_len_subset(met.to_set(), list.to_set());
        list.lemma_cardinality_of_set();
        list.lemma_no_dup_set_cardinality();
    }
}

/// A node that depends on one that does not exist is never in the order.
pub proof fn law_missing_dependency_is_never_met(
    deps: Seq<Seq<usize>>,
    node: usize,
    missing: usize,
)
    requires
        deps.len() <= usize::MAX,
        node < deps.len(),
        deps[node as int].contains(missing),
        missing >= deps.len(),
    ensures
        !execution_order(deps).contains(node),
{
    let order = execution_order(deps);
    law_order_is_topological(deps);
    if order.contains(node) {
        let i = order.index_of(node);
        assert(order[i] == node);
        assert(order.take(i).contains(missing));
        assert(order[order.take(i).index_of(missing)] == missing);
        assert(order.contains(missing));
    }
}

/// Whether `rank` grows along every dependency, so that there is no cycle.
pub open spec fn ranked(deps: Seq<Seq<usize>>, rank: spec_fn(usize) -> nat) -> bool {
    forall|j: usize, d: usize|
        j < deps.len() && #[trigger] deps[j as int].contains(d) ==> d < deps.len() && rank(d)
            < rank(j)
}

proof fn lemma_ranked_node(deps: Seq<Seq<usize>>, rank: spec_fn(usize) -> nat, node: usize)
    requires
        deps.len() <= usize::MAX,
        forall|j: int| 0 <= j < deps.len() ==> (#[trigger] deps[j]).no_duplicates(),
        ranked(deps, rank),
        node < deps.len(),
    ensures
        execution_order(deps).contains(node),
    decreases rank(node),
{
    assert forall|d: usize| #[trigger] deps[node as int].contains(d) implies execution_order(
        deps,
    ).contains(d) by {
        lemma_ranked_node(deps, rank, d);
    }
    law_order_is_maximal(deps, node);
}

/// Where no dependency is named twice and there is no cycle, every node is in
/// the order.
pub proof fn law_acyclic_order_is_complete(deps: Seq<Seq<usize>>, rank: spec_fn(usize) -> nat)
    requires
        deps.len() <= usize::MAX,
        forall|j: int| 0 <= j < deps.len() ==> (#[trigger] deps[j]).no_duplicates(),
        ranked(deps, rank),
    ensures
        execution_order(deps).len() == deps.len(),
        forall|x: usize| x < deps.len() ==> #[trigger] execution_order(deps).contains(x),
{
    assert forall|x: usize| x < deps.len() implies #[trigger] execution_order(deps).contains(
        x,
    ) by {
        lemma_ranked_node(deps, rank, x);
    }
    law_order_is_topological(deps);
    let order = execution_order(deps);
    let everything = |j: int| true;
    let all = indices_where(deps.len(), everything);
    lemma_indices_where(deps.len(), everything);
    lemma_indices_where_all(deps.len(), everything);
    all.unique_seq_to_set();
    order.unique_seq_to_set();
    assert(all.to_set() =~= order.to_set()) by {
        assert forall|x: usize| all.to_set().contains(x) == order.to_set().contains(x) by {
            assert(all.contains(x) <==> order.contains(x));
        }
    }
}

proof fn lemma_indices_where_all(n: nat, pred: spec_fn(int) -> bool)
    requires
        forall|j: int| #[trigger] pred(j),
    ensures
        indices_where(n, pred).len() == n,
    decreases n,
{
    if n > 0 {
        lemma_indices_where_all((n - 1) as nat, pred);
    }
}

/// Nodes that hold each other back are left out: where each node of `cycle`
/// depends on one of `cycle`, none of them is in the order.
pub proof fn law_cycles_are_left_out(deps: Seq<Seq<usize>>, cycle: Set<usize>, node: usize)
    requires
        deps.len() <= usize::MAX,
        forall|j: usize| #[trigger]
            cycle.contains(j) ==> j < deps.len() && exists|d: usize| #[trigger]
                deps[j as int].contains(d) && cycle.contains(d),
        cycle.contains(node),
    ensures
        !execution_order(deps).contains(node),
{
    law_order_is_topological(deps);
    let order = execution_order(deps);
    if order.contains(node) {
        lemma_no_cycle_in(deps, order, cycle, order.index_of(node));
    }
}

#[verifier::rlimit(60)]
proof fn lemma_no_cycle_in(deps: Seq<Seq<usize>>, order: Seq<usize>, cycle: Set<usize>, k: int)
    requires
        respects(deps, order),
        forall|j: usize| #[trigger]
            cycle.contains(j) ==> j < deps.len() && exists|d: usize| #[trigger]
                deps[j as int].contains(d) && cycle.contains(d),
        0 <= k < order.len(),
    ensures
        !cycle.contains(order[k]),
    decreases k,
{
    if cycle.contains(order[k]) {
        let d = choose|d: usize| #[trigger]
            deps[order[k] as int].contains(d) && cycle.contains(d);
        assert(order.take(k).contains(d));
        let i = order.take(k).index_of(d);
        assert(order[i] == d);
        lemma_no_cycle_in(deps, order, cycle, i);
    }
}

/// The passes other than `reader` that write what the pass `reader` reads.
pub open spec fn is_read_by<C>(passes: Seq<PassView<C>>, reader: int) -> spec_fn(int) -> bool {
    |writer: int|
        writer != reader && reads_written(passes[reader].reads, passes[writer].writes)
}

/// For each pass, the passes that have to run before it.
pub open spec fn pass_dependencies<C>(passes: Seq<PassView<C>>) -> Seq<Seq<usize>> {
    Seq::new(passes.len(), |j: int| indices_where(passes.len(), is_read_by(passes, j)))
}

/// The order in which `passes` are compiled.
pub open spec fn pass_order<C>(passes: Seq<PassView<C>>) -> Seq<usize> {
    execution_order(pass_dependencies(passes))
}

impl<'a, C> FrameScope<'a, C> {
    /// Orders passes such that each comes after those that write what it reads.
    pub fn sorting_passes(passes: &Vec<Pass<C>>) -> (order: Vec<usize>)
        ensures
            order@ == pass_order(desc_views(passes@)),
            order@.no_duplicates(),
            forall|k: int| 0 <= k < order@.len() ==> (#[trigger] order@[k]) < passes@.len(),
            forall|k: int, a: int, r: int, w: int|
                #![trigger order@[k], passes@[a]@.writes[w], passes@[order@[k] as int]@.reads[r]]
                0 <= k < order@.len() && 0 <= a < passes@.len() && a != order@[k] && 0 <= r
                    < passes@[order@[k] as int]@.reads.len() && 0 <= w < passes@[a]@.writes.len()
                    && passes@[order@[k] as int]@.reads[r].0@ == passes@[a]@.writes[w].0@
                    && passes@[order@[k] as int]@.reads[r].1 == passes@[a]@.writes[w].1
                    ==> order@.take(k).contains(a as usize),
    {
        let n: usize = passes.len();
        let mut dependencies: Vec<Vec<usize>> = Vec::with_capacity(n);
        for j in 0..n
            invariant
                dependencies.len() == j,
                forall|k: int| 0 <= k < j ==> (#[trigger] dependencies@[k])@ == Seq::<usize>::empty(),
        {
            dependencies.push(Vec::new());
        }
        for i in 0..n
            invariant
                n == passes.len(),
                dependencies.len() == n,
                forall|k: int|
                    0 <= k < n ==> (#[trigger] dependencies@[k])@ == indices_where(
                        i as nat,
                        is_read_by(desc_views(passes@), k),
                    ),
        {
            for j in 0..n
                invariant
                    n == passes.len(),
                    i < n,
                    dependencies.len() == n,
                    forall|k: int|
                        0 <= k < j ==> (#[trigger] dependencies@[k])@ == indices_where(
                            (i + 1) as nat,
                            is_read_by(desc_views(passes@), k),
                        ),
                    forall|k: int|
                        j <= k < n ==> (#[trigger] dependencies@[k])@ == indices_where(
                            i as nat,
                            is_read_by(desc_views(passes@), k),
                        ),
            {
                if i != j && passes[j].reads_from(&passes[i]) {
                    dependencies[j].push(i);
                }
            }
        }
        assert(lists(dependencies@) =~= pass_dependencies(desc_views(passes@)));
        let order = Self::topological_sort(&dependencies);
        proof {
            let views = desc_views(passes@);
            assert forall|k: int, a: int, r: int, w: int|
                #![trigger order@[k], passes@[a]@.writes[w], passes@[order@[k] as int]@.reads[r]]
                0 <= k < order@.len() && 0 <= a < passes@.len() && a != order@[k] && 0 <= r
                    < passes@[order@[k] as int]@.reads.len() && 0 <= w < passes@[a]@.writes.len()
                    && passes@[order@[k] as int]@.reads[r].0@ == passes@[a]@.writes[w].0@
                    && passes@[order@[k] as int]@.reads[r].1
                    == passes@[a]@.writes[w].1 implies order@.take(k).contains(a as usize) by {
                assert(order@[k] < passes@.len());
                assert(views[a] == passes@[a]@ && views[order@[k] as int]
                    == passes@[order@[k] as int]@);
                law_every_write_is_waited_for(views, a as usize, w, order@[k], r);
                let i = choose|i: int| 0 <= i < k && #[trigger] pass_order(views)[i] == a as usize;
                assert(order@.take(k)[i] == a as usize);
            }
        }
        order
    }
}

/// No pass depends on itself, on one that does not exist, or twice on another.
pub proof fn law_pass_dependencies<C>(passes: Seq<PassView<C>>, pass: usize)
    requires
        passes.len() <= usize::MAX,
        pass < passes.len(),
    ensures
        pass_dependencies(passes)[pass as int].no_duplicates(),
        !pass_dependencies(passes)[pass as int].contains(pass),
        forall|writer: usize| #[trigger]
            pass_dependencies(passes)[pass as int].contains(writer) <==> writer < passes.len()
                && writer != pass && reads_written(
                passes[pass as int].reads,
                passes[writer as int].writes,
            ),
{
    lemma_indices_where(passes.len(), is_read_by(passes, pass as int));
}


/// Whether all that node `x` waits for is among the first `m` nodes of `order`.
pub open spec fn is_ready(deps: Seq<Seq<usize>>, order: Seq<usize>, x: usize, m: int) -> bool {
    forall|d: usize| #[trigger] deps[x as int].contains(d) ==> order.take(m).contains(d)
}

/// Whether, of two nodes that are ready after the first `k` nodes of `order`, `x`
/// gives way to `y`: it was ready before `y`, or it was ready at the same time and
/// has the lower index.
pub open spec fn gives_way(
    deps: Seq<Seq<usize>>,
    order: Seq<usize>,
    k: int,
    x: usize,
    y: usize,
) -> bool {
    ||| exists|m: int|
        0 <= m <= k && #[trigger] is_ready(deps, order, x, m) && !is_ready(deps, order, y, m)
    ||| x < y && forall|m: int|
        0 <= m <= k ==> (#[trigger] is_ready(deps, order, x, m) <==> is_ready(deps, order, y, m))
}

/// Whether each node of the stack gives way to those above it.
spec fn is_stacked(deps: Seq<Seq<usize>>, stack: Seq<usize>, done: Seq<usize>) -> bool {
    forall|i: int, j: int|
        0 <= i < j < stack.len() ==> gives_way(
            deps,
            done,
            done.len() as int,
            #[trigger] stack[i],
            #[trigger] stack[j],
        )
}

proof fn lemma_ascending(n: nat, pred: spec_fn(int) -> bool)
    requires
        n <= usize::MAX,
    ensures
        forall|i: int, j: int|
            0 <= i < j < indices_where(n, pred).len() ==> (#[trigger] indices_where(n, pred)[i]) < (
            #[trigger] indices_where(n, pred)[j]),
    decreases n,
{
    if n > 0 {
        let all = indices_where(n, pred);
        let below = indices_where((n - 1) as nat, pred);
        lemma_ascending((n - 1) as nat, pred);
        lemma_indices_where((n - 1) as nat, pred);
        assert forall|i: int, j: int| 0 <= i < j < all.len() implies (#[trigger] all[i]) < (
        #[trigger] all[j]) by {
            assert(below.contains(below[i]));
            if j < below.len() {
                assert(below[i] < below[j]);
            }
        }
    }
}

/// What the first nodes of an order say of readiness does not depend on the rest.
proof fn lemma_same_readiness(
    deps: Seq<Seq<usize>>,
    short: Seq<usize>,
    long: Seq<usize>,
    x: usize,
    m: int,
)
    requires
        0 <= m <= short.len() <= long.len(),
        long.take(short.len() as int) == short,
    ensures
        is_ready(deps, short, x, m) <==> is_ready(deps, long, x, m),
{
    assert(long.take(m) =~= short.take(m));
}

proof fn lemma_stays_ready(deps: Seq<Seq<usize>>, order: Seq<usize>, x: usize, m: int, k: int)
    requires
        0 <= m <= k <= order.len(),
        is_ready(deps, order, x, m),
    ensures
        is_ready(deps, order, x, k),
{
    assert forall|d: usize| #[trigger] deps[x as int].contains(d) implies order.take(k).contains(
        d,
    ) by {
        let i = order.take(m).index_of(d);
        assert(order.take(k)[i] == d);
    }
}

proof fn lemma_stacked(deps: Seq<Seq<usize>>, stack: Seq<usize>, done: Seq<usize>)
    requires
        deps.len() <= usize::MAX,
        consistent(deps, stack, done),
        is_stacked(deps, stack, done),
        stack.len() > 0,
    ensures
        is_stacked(
            deps,
            stack.drop_last() + indices_where(
                deps.len(),
                is_released(deps, done.push(stack.last())),
            ),
            done.push(stack.last()),
        ),
{
    let node = stack.last();
    let now = done.push(node);
    let n = done.len() as int;
    let released = indices_where(deps.len(), is_released(deps, now));
    let rest = stack.drop_last();
    let next = rest + released;
    lemma_take(deps, stack, done);
    lemma_indices_where(deps.len(), is_released(deps, now));
    lemma_ascending(deps.len(), is_released(deps, now));
    assert(stack.contains(node)) by {
        assert(stack[stack.len() - 1] == node);
    }
    assert(now.take(n) =~= done);
    assert(done.take(n) =~= done);
    assert(now.take(n + 1) =~= now);
    assert forall|x: usize| #[trigger] stack.contains(x) implies is_ready(deps, done, x, n) by {
        lemma_waiting(deps[x as int], done);
    }
    assert forall|x: usize, m: int|
        released.contains(x) && 0 <= m <= n implies !#[trigger] is_ready(deps, now, x, m) by {
        assert(deps[x as int].contains(node));
        if now.take(m).contains(node) {
            let i = now.take(m).index_of(node);
            assert(done[i] == node);
            assert(done.contains(node));
        }
    }
    assert forall|x: usize| #[trigger] released.contains(x) implies is_ready(
        deps,
        now,
        x,
        n + 1,
    ) by {
        lemma_waiting(deps[x as int], now);
    }
    assert forall|i: int, j: int| 0 <= i < j < next.len() implies gives_way(
        deps,
        now,
        n + 1,
        #[trigger] next[i],
        #[trigger] next[j],
    ) by {
        let x = next[i];
        let y = next[j];
        if i < rest.len() {
            assert(stack[i] == x);
            assert(stack.contains(x));
            lemma_same_readiness(deps, done, now, x, n);
        }
        if j < rest.len() {
            assert(stack[j] == y);
            assert(stack.contains(y));
            assert(gives_way(deps, done, n, stack[i], stack[j]));
            lemma_same_readiness(deps, done, now, y, n);
            lemma_stays_ready(deps, now, x, n, n + 1);
            lemma_stays_ready(deps, now, y, n, n + 1);
            if exists|m: int|
                0 <= m <= n && #[trigger] is_ready(deps, done, x, m) && !is_ready(
                    deps,
                    done,
                    y,
                    m,
                ) {
                let m = choose|m: int|
                    0 <= m <= n && #[trigger] is_ready(deps, done, x, m) && !is_ready(
                        deps,
                        done,
                        y,
                        m,
                    );
                lemma_same_readiness(deps, done, now, x, m);
                lemma_same_readiness(deps, done, now, y, m);
                assert(is_ready(deps, now, x, m) && !is_ready(deps, now, y, m));
            } else {
                assert forall|m: int| 0 <= m <= n + 1 implies (#[trigger] is_ready(
                    deps,
                    now,
                    x,
                    m,
                ) <==> is_ready(deps, now, y, m)) by {
                    if m <= n {
                        lemma_same_readiness(deps, done, now, x, m);
                        lemma_same_readiness(deps, done, now, y, m);
                        assert(is_ready(deps, done, x, m) <==> is_ready(deps, done, y, m));
                    }
                }
            }
        } else {
            assert(released[j - rest.len()] == y);
            assert(released.contains(y));
            if i < rest.len() {
                assert(is_ready(deps, now, x, n) && !is_ready(deps, now, y, n));
            } else {
                assert(released[i - rest.len()] == x);
                assert(released.contains(x));
                assert(x < y);
                assert forall|m: int| 0 <= m <= n + 1 implies (#[trigger] is_ready(
                    deps,
                    now,
                    x,
                    m,
                ) <==> is_ready(deps, now, y, m)) by {
                    if m <= n {
                        assert(!is_ready(deps, now, x, m));
                        assert(!is_ready(deps, now, y, m));
                    }
                }
            }
        }
    }
}

/// Whether the node at `k` is the one that all others that could be taken there
/// give way to.
spec fn is_newest(deps: Seq<Seq<usize>>, order: Seq<usize>, k: int) -> bool {
    forall|x: usize|
        x < deps.len() && x != order[k] && deps[x as int].no_duplicates() && !(#[trigger] order.take(
            k,
        ).contains(x)) && is_ready(deps, order, x, k) ==> gives_way(deps, order, k, x, order[k])
}

proof fn lemma_takes_the_newest(deps: Seq<Seq<usize>>, stack: Seq<usize>, done: Seq<usize>)
    requires
        deps.len() <= usize::MAX,
        consistent(deps, stack, done),
        is_stacked(deps, stack, done),
    ensures
        ({
            let order = take_from(deps, stack, done);
            &&& done.len() <= order.len()
            &&& order.take(done.len() as int) == done
            &&& forall|k: int| done.len() <= k < order.len() ==> #[trigger] is_newest(deps, order, k)
        }),
    decreases deps.len() - done.len(),
{
    let order = take_from(deps, stack, done);
    if stack.len() == 0 {
        assert(order.take(done.len() as int) =~= done);
    } else {
        let node = stack.last();
        let now = done.push(node);
        let n = done.len() as int;
        lemma_take(deps, stack, done);
        lemma_stacked(deps, stack, done);
        lemma_takes_the_newest(
            deps,
            stack.drop_last() + indices_where(deps.len(), is_released(deps, now)),
            now,
        );
        assert(order.take(n + 1) == now);
        assert(order.take(n) =~= done) by {
            assert(now.take(n) =~= done);
            assert(order.take(n + 1).take(n) =~= order.take(n));
        }
        assert(order[n] == node) by {
            assert(order.take(n + 1)[n] == node);
        }
        assert forall|x: usize|
            x < deps.len() && x != order[n] && deps[x as int].no_duplicates() && !(
            #[trigger] order.take(n).contains(x)) && is_ready(deps, order, x, n) implies gives_way(
            deps,
            order,
            n,
            x,
            order[n],
        ) by {
            lemma_waiting(deps[x as int], done);
            assert(stack.contains(x));
            let i = stack.index_of(x);
            assert(gives_way(deps, done, n, stack[i], stack[stack.len() - 1]));
            if exists|m: int|
                0 <= m <= n && #[trigger] is_ready(deps, done, x, m) && !is_ready(
                    deps,
                    done,
                    node,
                    m,
                ) {
                let m = choose|m: int|
                    0 <= m <= n && #[trigger] is_ready(deps, done, x, m) && !is_ready(
                        deps,
                        done,
                        node,
                        m,
                    );
                lemma_same_readiness(deps, done, order, x, m);
                lemma_same_readiness(deps, done, order, node, m);
                assert(is_ready(deps, order, x, m) && !is_ready(deps, order, node, m));
            } else {
                assert forall|m: int| 0 <= m <= n implies (#[trigger] is_ready(deps, order, x, m)
                    <==> is_ready(deps, order, node, m)) by {
                    lemma_same_readiness(deps, done, order, x, m);
                    lemma_same_readiness(deps, done, order, node, m);
                    assert(is_ready(deps, done, x, m) <==> is_ready(deps, done, node, m));
                }
            }
        }
        assert(is_newest(deps, order, n));
    }
}

/// Which node comes next: of those that all they wait for is there and that are not
/// there yet themselves, the one that became ready last, and of those that became
/// ready together the one with the highest index.
pub proof fn law_newest_comes_next(deps: Seq<Seq<usize>>, k: int, x: usize)
    requires
        deps.len() <= usize::MAX,
        0 <= k < execution_order(deps).len(),
        x < deps.len(),
        x != execution_order(deps)[k],
        deps[x as int].no_duplicates(),
        !execution_order(deps).take(k).contains(x),
        is_ready(deps, execution_order(deps), x, k),
    ensures
        gives_way(deps, execution_order(deps), k, x, execution_order(deps)[k]),
{
    let stack = indices_where(deps.len(), is_source(deps));
    let done = Seq::<usize>::empty();
    lemma_start(deps);
    lemma_indices_where(deps.len(), is_source(deps));
    lemma_ascending(deps.len(), is_source(deps));
    assert forall|i: int, j: int| 0 <= i < j < stack.len() implies gives_way(
        deps,
        done,
        0,
        #[trigger] stack[i],
        #[trigger] stack[j],
    ) by {
        assert(stack.contains(stack[i]) && stack.contains(stack[j]));
        assert forall|m: int| 0 <= m <= 0 implies (#[trigger] is_ready(deps, done, stack[i], m)
            <==> is_ready(deps, done, stack[j], m)) by {
            assert(deps[stack[i] as int].len() == 0 && deps[stack[j] as int].len() == 0);
        }
    }
    lemma_takes_the_newest(deps, stack, done);
    assert(is_newest(deps, execution_order(deps), k));
}

/// A pass waits for each pass that writes, at any place of its list, what it reads
/// at any place of its own, with the same access: the writer is one of its
/// dependencies, and comes before it in the order.
pub proof fn law_every_write_is_waited_for<C>(
    passes: Seq<PassView<C>>,
    writer: usize,
    w: int,
    reader: usize,
    r: int,
)
    requires
        passes.len() <= usize::MAX,
        writer < passes.len(),
        reader < passes.len(),
        writer != reader,
        0 <= w < passes[writer as int].writes.len(),
        0 <= r < passes[reader as int].reads.len(),
        passes[reader as int].reads[r].0@ == passes[writer as int].writes[w].0@,
        passes[reader as int].reads[r].1 == passes[writer as int].writes[w].1,
    ensures
        pass_dependencies(passes)[reader as int].contains(writer),
        forall|k: int|
            0 <= k < pass_order(passes).len() && #[trigger] pass_order(passes)[k] == reader
                ==> exists|i: int| 0 <= i < k && #[trigger] pass_order(passes)[i] == writer,
{
    let order = pass_order(passes);
    assert(same_use(passes[reader as int].reads[r], passes[writer as int].writes[w]));
    law_pass_dependencies(passes, reader);
    law_order_is_topological(pass_dependencies(passes));
    assert forall|k: int| 0 <= k < order.len() && #[trigger] order[k] == reader implies exists|
        i: int,
    |
        0 <= i < k && #[trigger] order[i] == writer by {
        assert(pass_dependencies(passes)[order[k] as int].contains(writer));
        assert(order.take(k).contains(writer));
        let i = order.take(k).index_of(writer);
        assert(order[i] == writer);
    }
}

/// A pass waits for no other than those: each of its dependencies is another pass
/// that writes something that it reads, with the same access.
pub proof fn law_dependencies_have_a_cause<C>(
    passes: Seq<PassView<C>>,
    writer: usize,
    reader: usize,
)
    requires
        passes.len() <= usize::MAX,
        reader < passes.len(),
        pass_dependencies(passes)[reader as int].contains(writer),
    ensures
        writer < passes.len(),
        writer != reader,
        exists|r: int, w: int|
            0 <= r < passes[reader as int].reads.len() && 0 <= w
                < passes[writer as int].writes.len() && (
            #[trigger] passes[reader as int].reads[r]).0@ == (
            #[trigger] passes[writer as int].writes[w]).0@ && passes[reader as int].reads[r].1
                == passes[writer as int].writes[w].1,
{
    law_pass_dependencies(passes, reader);
    let reads = passes[reader as int].reads;
    let writes = passes[writer as int].writes;
    let (r, w) = choose|r: int, w: int|
        0 <= r < reads.len() && 0 <= w < writes.len() && #[trigger] same_use(reads[r], writes[w]);
    assert(reads[r].0@ == writes[w].0@ && reads[r].1 == writes[w].1);
}

/// A pass is left out of the order only for one that it waits for and that is left
/// out as well.
pub proof fn law_pass_is_left_out_for_another<C>(passes: Seq<PassView<C>>, reader: usize)
    requires
        passes.len() <= usize::MAX,
        reader < passes.len(),
        !pass_order(passes).contains(reader),
    ensures
        exists|writer: usize, r: int, w: int|
            writer < passes.len() && writer != reader && !pass_order(passes).contains(writer) && 0
                <= r < passes[reader as int].reads.len() && 0 <= w
                < passes[writer as int].writes.len() && (
            #[trigger] passes[reader as int].reads[r]).0@ == (
            #[trigger] passes[writer as int].writes[w]).0@ && passes[reader as int].reads[r].1
                == passes[writer as int].writes[w].1,
{
    let deps = pass_dependencies(passes);
    law_pass_dependencies(passes, reader);
    if forall|d: usize| #[trigger]
        deps[reader as int].contains(d) ==> execution_order(deps).contains(d) {
        law_order_is_maximal(deps, reader);
    }
    let writer = choose|d: usize| #[trigger]
        deps[reader as int].contains(d) && !execution_order(deps).contains(d);
    law_dependencies_have_a_cause(passes, writer, reader);
}

/// Which pass comes next in the order: of those that wait for no pass that is not
/// there yet, and that are not there yet themselves, the one that became ready
/// last, and of those that became ready together the one that was added last.
pub proof fn law_newest_pass_comes_next<C>(passes: Seq<PassView<C>>, k: int, x: usize)
    requires
        passes.len() <= usize::MAX,
        0 <= k < pass_order(passes).len(),
        x < passes.len(),
        x != pass_order(passes)[k],
        !pass_order(passes).take(k).contains(x),
        is_ready(pass_dependencies(passes), pass_order(passes), x, k),
    ensures
        pass_dependencies(passes).len() == passes.len(),
        gives_way(
            pass_dependencies(passes),
            pass_order(passes),
            k,
            x,
            pass_order(passes)[k],
        ),
{
    law_pass_dependencies(passes, x);
    law_newest_comes_next(pass_dependencies(passes), k, x);
}

} // verus!

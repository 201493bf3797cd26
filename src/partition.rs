use vstd::prelude::*;
use crate::task::{copy_tasks, Task};

verus! {

/// How many bundles `t` tasks make among `m` members: one per member, or one
/// per task where there are fewer tasks than members.
pub open spec fn bundle_count(t: nat, m: nat) -> nat {
    if t >= m {
        m
    } else {
        t
    }
}

/// Bundle `i` of the tasks shared among `m` members.
///
/// With at least as many tasks as members, the first `t - t % m` tasks are cut
/// into runs of `t / m`, and the `t % m` tasks left over go one each, in order,
/// to the end of the first bundles. With fewer tasks than members, each task is
/// a bundle of its own.
pub open spec fn bundle_of(tasks: Seq<Task>, m: nat, i: int) -> Seq<Task> {
    let t = tasks.len();
    if t >= m {
        let q = t / m;
        let r = t % m;
        tasks.subrange(i * q, i * q + q) + if i < r {
            seq![tasks[t - r + i]]
        } else {
            Seq::empty()
        }
    } else {
        seq![tasks[i]]
    }
}

/// The bundles that `tasks` are split into among `m` members.
pub open spec fn partition(tasks: Seq<Task>, m: nat) -> Seq<Seq<Task>> {
    Seq::new(bundle_count(tasks.len(), m), |i: int| bundle_of(tasks, m, i))
}

/// What a list of bundles holds, bundle by bundle.
pub open spec fn bundles_view(groups: Seq<Vec<Task>>) -> Seq<Seq<Task>> {
    groups.map_values(|b: Vec<Task>| b@)
}

/// The bundles one after the other.
pub open spec fn concat(bundles: Seq<Seq<Task>>) -> Seq<Task>
    decreases bundles.len(),
{
    if bundles.len() == 0 {
        Seq::empty()
    } else {
        concat(bundles.drop_last()) + bundles.last()
    }
}

/// The assignment made right after the bundles are rebuilt: the member at
/// position `p` holds bundle `p`, where there is one.
pub open spec fn initial_assignments(member_count: nat, bundles: nat) -> Seq<Option<usize>> {
    Seq::new(member_count, |p: int| if p < bundles { Some(p as usize) } else { None })
}

proof fn lemma_bundle_bounds(t: nat, m: nat, i: int)
    requires
        m > 0,
        t >= m,
        0 <= i < m,
    ensures
        t / m >= 1,
        t % m < m,
        t == m * (t / m) + t % m,
        0 <= i * (t / m),
        i * (t / m) + t / m <= t - t % m,
{
    let q = t / m;
    vstd::arithmetic::div_mod::lemma_fundamental_div_mod(t as int, m as int);
    vstd::arithmetic::div_mod::lemma_mod_pos_bound(t as int, m as int);
    if q == 0 {
        assert(m * q == 0) by (nonlinear_arith)
            requires
                q == 0,
        ;
    }
    assert(0 <= i * q) by (nonlinear_arith)
        requires
            0 <= i,
            0 <= q,
    ;
    assert(i * q + q <= m * q) by (nonlinear_arith)
        requires
            i + 1 <= m,
            0 <= q,
    ;
}

/// The size of the runs that the tasks are cut into before any leftover task
/// is handed out.
pub open spec fn run_length(t: nat, m: nat) -> nat {
    if t >= m {
        t / m
    } else {
        1
    }
}

proof fn lemma_concat_prefix(tasks: Seq<Task>, m: nat, k: int)
    requires
        m >= 1,
        tasks.len() % m == 0 || tasks.len() < m,
        0 <= k <= bundle_count(tasks.len(), m),
    ensures
        k * run_length(tasks.len(), m) <= tasks.len(),
        concat(partition(tasks, m).take(k)) == tasks.subrange(
            0,
            k * run_length(tasks.len(), m),
        ),
    decreases k,
{
    let t = tasks.len();
    let s = run_length(t, m);
    let p = partition(tasks, m);
    if k == 0 {
        assert(k * s == 0) by (nonlinear_arith)
            requires
                k == 0,
        ;
        assert(p.take(0) =~= Seq::<Seq<Task>>::empty());
        assert(tasks.subrange(0, 0) =~= Seq::<Task>::empty());
    } else {
        lemma_concat_prefix(tasks, m, k - 1);
        assert(p.take(k).drop_last() =~= p.take(k - 1));
        assert((k - 1) * s + s == k * s) by (nonlinear_arith);
        if t >= m {
            lemma_bundle_bounds(t, m, k - 1);
            assert((k - 1) * s + s <= t);
            assert(p[k - 1] =~= tasks.subrange((k - 1) * s, (k - 1) * s + s));
        } else {
            assert(k * s == k) by (nonlinear_arith)
                requires
                    s == 1,
            ;
            assert(p[k - 1] =~= tasks.subrange(k - 1, k));
        }
        assert(tasks.subrange(0, (k - 1) * s) + tasks.subrange((k - 1) * s, k * s) =~= tasks.subrange(
            0,
            k * s,
        ));
    }
}

/// Where the tasks share out evenly among the members, or there are fewer
/// tasks than members, the bundles one after the other give back exactly the
/// tasks, in their order.
pub proof fn lemma_bundles_concat_to_tasks(tasks: Seq<Task>, m: nat)
    requires
        m >= 1,
        tasks.len() >= 1,
        tasks.len() % m == 0 || tasks.len() < m,
    ensures
        concat(partition(tasks, m)) == tasks,
{
    let t = tasks.len();
    let p = partition(tasks, m);
    lemma_concat_prefix(tasks, m, bundle_count(t, m) as int);
    assert(p.take(bundle_count(t, m) as int) =~= p);
    if t >= m {
        vstd::arithmetic::div_mod::lemma_fundamental_div_mod(t as int, m as int);
    }
    assert(tasks.subrange(0, t as int) =~= tasks);
}

proof fn lemma_concat_prefix_multiset(tasks: Seq<Task>, m: nat, k: int)
    requires
        m >= 1,
        tasks.len() >= m,
        0 <= k <= m,
    ensures
        concat(partition(tasks, m).take(k)).to_multiset() =~= tasks.subrange(
            0,
            k * (tasks.len() / m),
        ).to_multiset().add(
            tasks.subrange(
                tasks.len() - tasks.len() % m,
                tasks.len() - tasks.len() % m + (if k < tasks.len() % m {
                    k
                } else {
                    (tasks.len() % m) as int
                }),
            ).to_multiset(),
        ),
    decreases k,
{
    broadcast use vstd::multiset::group_multiset_axioms;

    let t = tasks.len();
    let q = t / m;
    let r = t % m;
    let p = partition(tasks, m);
    let base = t - r;
    if k == 0 {
        assert(k * q == 0) by (nonlinear_arith)
            requires
                k == 0,
        ;
        assert(p.take(0) =~= Seq::<Seq<Task>>::empty());
        assert(tasks.subrange(0, 0) =~= Seq::<Task>::empty());
        assert(tasks.subrange(base, base) =~= Seq::<Task>::empty());
        assert(concat(p.take(0)) =~= Seq::<Task>::empty());
        let e = Seq::<Task>::empty();
        vstd::seq_lib::lemma_multiset_commutative(e, e);
        assert(e + e =~= e);
    } else {
        lemma_concat_prefix_multiset(tasks, m, k - 1);
        lemma_bundle_bounds(t, m, k - 1);
        assert((k - 1) * q + q == k * q) by (nonlinear_arith);
        assert(p.take(k).drop_last() =~= p.take(k - 1));
        let prev = concat(p.take(k - 1));
        let run = tasks.subrange((k - 1) * q, k * q);
        let extra = if k - 1 < r {
            seq![tasks[base + k - 1]]
        } else {
            Seq::<Task>::empty()
        };
        assert(p[k - 1] =~= run + extra);
        vstd::seq_lib::lemma_multiset_commutative(prev, run + extra);
        vstd::seq_lib::lemma_multiset_commutative(run, extra);
        assert(tasks.subrange(0, (k - 1) * q) + run =~= tasks.subrange(0, k * q));
        vstd::seq_lib::lemma_multiset_commutative(tasks.subrange(0, (k - 1) * q), run);
        let lo = if k - 1 < r {
            k - 1
        } else {
            r as int
        };
        let hi = if k < r {
            k
        } else {
            r as int
        };
        assert(tasks.subrange(base, base + lo) + extra =~= tasks.subrange(base, base + hi));
        vstd::seq_lib::lemma_multiset_commutative(tasks.subrange(base, base + lo), extra);
        assert(p.take(k).last() == p[k - 1]);
        assert(concat(p.take(k)) == prev + (run + extra));
        assert(concat(p.take(k)).to_multiset() =~= prev.to_multiset().add(run.to_multiset()).add(
            extra.to_multiset(),
        ));
    }
}

/// For any numbers of tasks and members, the bundles together hold every task
/// exactly as often as the task list does: none is lost or repeated. (Their
/// order is kept only where the tasks share out evenly or are fewer than the
/// members; otherwise the leftover tasks sit at the ends of the first bundles.)
pub proof fn lemma_bundles_hold_each_task_once(tasks: Seq<Task>, m: nat)
    requires
        m >= 1,
    ensures
        concat(partition(tasks, m)).to_multiset() == tasks.to_multiset(),
{
    broadcast use vstd::multiset::group_multiset_axioms;

    let t = tasks.len();
    if t < m {
        if t >= 1 {
            lemma_bundles_concat_to_tasks(tasks, m);
        } else {
            assert(partition(tasks, m) =~= Seq::<Seq<Task>>::empty());
            assert(tasks =~= Seq::<Task>::empty());
            assert(concat(partition(tasks, m)) =~= Seq::<Task>::empty());
        }
    } else {
        let p = partition(tasks, m);
        lemma_concat_prefix_multiset(tasks, m, m as int);
        lemma_bundle_bounds(t, m, 0);
        assert(m * (t / m) == t - t % m);
        assert(p.take(m as int) =~= p);
        let base = t - t % m;
        assert(tasks.subrange(0, base) + tasks.subrange(base, t as int) =~= tasks);
        vstd::seq_lib::lemma_multiset_commutative(
            tasks.subrange(0, base),
            tasks.subrange(base, t as int),
        );
        assert((m as int) * (t / m) == base);
        assert(concat(p).to_multiset() =~= tasks.subrange(0, base).to_multiset().add(
            tasks.subrange(base, t as int).to_multiset(),
        ));
    }
}

/// With at least as many tasks as members there is one bundle per member;
/// the first `t % m` bundles hold `t / m + 1` tasks and the others `t / m`.
pub proof fn lemma_split_sizes(tasks: Seq<Task>, m: nat)
    requires
        m >= 1,
        tasks.len() >= m,
    ensures
        partition(tasks, m).len() == m,
        forall|i: int|
            0 <= i < tasks.len() % m ==> (#[trigger] partition(tasks, m)[i]).len() == tasks.len() / m
                + 1,
        forall|i: int|
            tasks.len() % m <= i < m ==> (#[trigger] partition(tasks, m)[i]).len() == tasks.len()
                / m,
{
    let t = tasks.len();
    assert forall|i: int| 0 <= i < m implies (#[trigger] partition(tasks, m)[i]).len() == t / m + (
    if i < t % m {
        1int
    } else {
        0
    }) by {
        lemma_bundle_bounds(t, m, i);
    }
}

/// Tasks that share out evenly make one bundle per member, all of size
/// `t / m`.
pub proof fn lemma_even_split_sizes(tasks: Seq<Task>, m: nat)
    requires
        m >= 1,
        tasks.len() >= m,
        tasks.len() % m == 0,
    ensures
        partition(tasks, m).len() == m,
        forall|i: int| 0 <= i < m ==> (#[trigger] partition(tasks, m)[i]).len() == tasks.len() / m,
{
    lemma_split_sizes(tasks, m);
}

/// With fewer tasks than members, each task is a bundle of its own, and the
/// members past the last task hold no bundle after a rebuild.
pub proof fn lemma_fewer_tasks_than_members(tasks: Seq<Task>, m: nat)
    requires
        tasks.len() < m,
    ensures
        partition(tasks, m).len() == tasks.len(),
        forall|i: int|
            0 <= i < tasks.len() ==> #[trigger] partition(tasks, m)[i] == seq![tasks[i]],
        forall|p: int|
            tasks.len() <= p < m ==> (#[trigger] initial_assignments(
                m,
                bundle_count(tasks.len(), m),
            )[p]) is None,
{
}

/// Splits `tasks` into the bundles of `partition` for `member_count` members.
pub fn partition_tasks(tasks: &Vec<Task>, member_count: usize) -> (r: Vec<Vec<Task>>)
    requires
        member_count > 0,
    ensures
        bundles_view(r@) == partition(tasks@, member_count as nat),
{
    let task_count = tasks.len();
    let ghost m = member_count as nat;
    let mut groups: Vec<Vec<Task>> = Vec::new();
    if task_count >= member_count {
        let groups_of = task_count / member_count;
        let remaining = task_count % member_count;
        let mut i: usize = 0;
        while i < member_count
            invariant
                task_count == tasks@.len(),
                m == member_count,
                task_count >= member_count > 0,
                groups_of == task_count / member_count,
                remaining == task_count % member_count,
                i <= member_count,
                groups@.len() == i,
                forall|j: int| 0 <= j < i ==> (#[trigger] groups@[j])@ == bundle_of(tasks@, m, j),
            decreases member_count - i,
        {
            proof {
                lemma_bundle_bounds(task_count as nat, m, i as int);
            }
            let start = i * groups_of;
            let mut bundle = copy_tasks(tasks, start, start + groups_of);
            if i < remaining {
                bundle.push(tasks[task_count - remaining + i].duplicate());
            }
            assert(bundle@ =~= bundle_of(tasks@, m, i as int));
            groups.push(bundle);
            i += 1;
        }
    } else {
        let mut i: usize = 0;
        while i < task_count
            invariant
                task_count == tasks@.len(),
                m == member_count,
                task_count < member_count,
                i <= task_count,
                groups@.len() == i,
                forall|j: int| 0 <= j < i ==> (#[trigger] groups@[j])@ == bundle_of(tasks@, m, j),
            decreases task_count - i,
        {
            let single = vec![tasks[i].duplicate()];
            assert(single@ =~= bundle_of(tasks@, m, i as int));
            groups.push(single);
            i += 1;
        }
    }
    assert(bundles_view(groups@) =~= partition(tasks@, m));
    groups
}

} // verus!

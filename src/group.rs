use vstd::prelude::*;
use crate::partition::{bundle_count, bundles_view, initial_assignments, partition, partition_tasks};
use crate::task::{copy_tasks, Member, Task};

verus! {

/// The failure of a query or a rotation on a group that lacks tasks or members.
#[derive(Debug, Clone, Copy, PartialEq, Eq)]
pub struct NoDataError;

impl NoDataError {
    pub fn message(&self) -> (r: &'static str)
        ensures
            r@ == "No tasks or members added"@,
    {
        "No tasks or members added"
    }
}

/// A named group: its members, its tasks, and the bundles that the tasks are
/// split into, which are rebuilt whenever tasks or members are added.
pub struct Group {
    pub name: String,
    members: Option<Vec<Member>>,
    tasks: Option<Vec<Task>>,
    task_groups: Option<Vec<Vec<Task>>>,
}

/// The items of an optional list; no list holds none.
pub open spec fn option_seq<T>(o: Option<Vec<T>>) -> Seq<T> {
    match o {
        Some(v) => v@,
        None => Seq::empty(),
    }
}

/// The length of an optional list; no list counts as empty.
fn count_option_vec<T>(collection: &Option<Vec<T>>) -> (r: usize)
    ensures
        r == option_seq(*collection).len(),
{
    match collection {
        Some(c) => c.len(),
        None => 0,
    }
}

/// The bundle that an index names, if any.
pub open spec fn held_bundle(bundles: Seq<Seq<Task>>, a: Option<usize>) -> Option<Seq<Task>> {
    match a {
        Some(b) => Some(bundles[b as int]),
        None => None,
    }
}

/// Each member's name mapped to the bundle it holds; a later member with the
/// same name replaces an earlier one.
pub open spec fn assignment_map(
    names: Seq<String>,
    held: Seq<Option<usize>>,
    bundles: Seq<Seq<Task>>,
) -> Map<Seq<char>, Option<Seq<Task>>>
    decreases names.len(),
{
    if names.len() == 0 {
        Map::empty()
    } else {
        assignment_map(names.drop_last(), held.drop_last(), bundles).insert(
            names.last()@,
            held_bundle(bundles, held[names.len() - 1]),
        )
    }
}

/// What an optional bundle of an assignment list holds.
pub open spec fn entry_bundle(e: Option<Vec<Task>>) -> Option<Seq<Task>> {
    match e {
        Some(v) => Some(v@),
        None => None,
    }
}

/// The entries list each key of `map` once, with its value.
pub open spec fn lists_map(
    entries: Seq<(String, Option<Vec<Task>>)>,
    map: Map<Seq<char>, Option<Seq<Task>>>,
) -> bool {
    &&& forall|i: int, j: int|
        0 <= i < j < entries.len() ==> (#[trigger] entries[i]).0@ != (#[trigger] entries[j]).0@
    &&& forall|i: int|
        0 <= i < entries.len() ==> map.contains_key((#[trigger] entries[i]).0@) && map[entries[i].0@]
            == entry_bundle(entries[i].1)
    &&& forall|k: Seq<char>|
        #[trigger] map.contains_key(k) ==> exists|i: int|
            0 <= i < entries.len() && (#[trigger] entries[i]).0@ == k
}

/// The position of the entry for `name`, if there is one.
fn find_entry(entries: &Vec<(String, Option<Vec<Task>>)>, name: &String) -> (r: Option<usize>)
    ensures
        match r {
            Some(i) => i < entries@.len() && entries@[i as int].0@ == name@,
            None => forall|i: int| 0 <= i < entries@.len() ==> (#[trigger] entries@[i]).0@ != name@,
        },
{
    let mut i: usize = 0;
    while i < entries.len()
        invariant
            i <= entries@.len(),
            forall|k: int| 0 <= k < i ==> (#[trigger] entries@[k]).0@ != name@,
        decreases entries.len() - i,
    {
        if entries[i].0 == *name {
            return Some(i);
        }
        i += 1;
    }
    None
}

/// The sequence moved left by one place: the first item goes to the end.
pub open spec fn rotated<A>(s: Seq<A>) -> Seq<A> {
    if s.len() == 0 {
        s
    } else {
        s.subrange(1, s.len() as int).push(s[0])
    }
}

/// Rotating a single assignment leaves it as it was.
pub proof fn lemma_rotate_single(held: Seq<Option<usize>>)
    requires
        held.len() == 1,
    ensures
        rotated(held) == held,
{
    assert(rotated(held) =~= held);
}

impl Group {
    /// The members, in the order they were added.
    pub closed spec fn member_seq(&self) -> Seq<Member> {
        option_seq(self.members)
    }

    /// The tasks, in the order they were added.
    pub closed spec fn task_seq(&self) -> Seq<Task> {
        option_seq(self.tasks)
    }

    /// The current bundles; none before both tasks and members exist.
    pub closed spec fn bundles(&self) -> Seq<Seq<Task>> {
        match self.task_groups {
            Some(g) => bundles_view(g@),
            None => Seq::empty(),
        }
    }

    /// The group's name.
    pub closed spec fn name_view(&self) -> Seq<char> {
        self.name@
    }

    /// The members' names, in member order.
    pub open spec fn member_names(&self) -> Seq<String> {
        self.member_seq().map_values(|m: Member| m.name)
    }

    /// The bundle index that each member holds, in member order.
    pub open spec fn assignments(&self) -> Seq<Option<usize>> {
        self.member_seq().map_values(|m: Member| m.assigned_group)
    }

    /// The bundles and the assignment as a rebuild leaves them.
    pub open spec fn freshly_split(&self) -> bool {
        let t = self.task_seq().len();
        let m = self.member_seq().len();
        &&& self.bundles() == partition(self.task_seq(), m)
        &&& self.assignments() == initial_assignments(m, bundle_count(t, m))
    }

    /// Well-formedness: a list that is present is not empty, the bundles are
    /// the partition of the tasks among the members, and every bundle index
    /// that a member holds names a bundle.
    pub closed spec fn wf(&self) -> bool {
        &&& (self.members is Some ==> self.member_seq().len() > 0)
        &&& (self.tasks is Some ==> self.task_seq().len() > 0)
        &&& (self.task_groups is Some <==> (self.tasks is Some && self.members is Some))
        &&& self.bundles() == partition(self.task_seq(), self.member_seq().len())
        &&& forall|p: int|
            0 <= p < self.member_seq().len() ==> match (#[trigger] self.member_seq()[p]).assigned_group {
                Some(b) => b < self.bundles().len(),
                None => true,
            }
    }

    pub fn new(group_name: &str) -> (g: Group)
        ensures
            g.wf(),
            g.name_view() == group_name@,
            g.member_seq().len() == 0,
            g.task_seq().len() == 0,
            g.bundles().len() == 0,
    {
        let g = Group {
            name: group_name.to_owned(),
            members: None,
            tasks: None,
            task_groups: None,
        };
        assert(g.bundles() =~= partition(g.task_seq(), 0));
        g
    }

    /// The members, or `None` before the first one is added.
    pub fn members(&self) -> (r: &Option<Vec<Member>>)
        ensures
            option_seq(*r) == self.member_seq(),
            self.wf() ==> (r.is_some() <==> self.member_seq().len() > 0),
    {
        &self.members
    }

    /// The tasks, or `None` before the first one is added.
    pub fn tasks(&self) -> (r: &Option<Vec<Task>>)
        ensures
            option_seq(*r) == self.task_seq(),
            self.wf() ==> (r.is_some() <==> self.task_seq().len() > 0),
    {
        &self.tasks
    }

    /// The bundles, or `None` while tasks or members are missing.
    pub fn task_groups(&self) -> (r: &Option<Vec<Vec<Task>>>)
        ensures
            bundles_view(option_seq(*r)) == self.bundles(),
            self.wf() ==> (r.is_some() <==> (self.task_seq().len() > 0
                && self.member_seq().len() > 0)),
    {
        proof {
            if self.task_groups is None {
                assert(bundles_view(option_seq(self.task_groups)) =~= Seq::empty());
            }
        }
        &self.task_groups
    }

    /// Appends a member that holds no bundle yet; where tasks exist, the
    /// bundles and the assignment are rebuilt.
    pub fn add_member(&mut self, member: String)
        requires
            old(self).wf(),
        ensures
            final(self).wf(),
            final(self).name_view() == old(self).name_view(),
            final(self).task_seq() == old(self).task_seq(),
            final(self).member_names() == old(self).member_names().push(member),
            final(self).freshly_split(),
    {
        let new_member = Member { name: member, assigned_group: None };
        match self.members.take() {
            Some(mut v) => {
                v.push(new_member);
                self.members = Some(v);
            },
            None => {
                self.members = Some(vec![new_member]);
            },
        }
        assert(self.member_names() =~= old(self).member_names().push(member));
        if self.tasks.is_some() {
            self.set_up();
        } else {
            assert(self.bundles() =~= partition(self.task_seq(), self.member_seq().len()));
            assert(self.assignments() =~= initial_assignments(self.member_seq().len(), 0));
        }
    }

    /// Appends a task; where members exist, the bundles and the assignment
    /// are rebuilt.
    pub fn add_task(&mut self, task: Task)
        requires
            old(self).wf(),
        ensures
            final(self).wf(),
            final(self).name_view() == old(self).name_view(),
            final(self).task_seq() == old(self).task_seq().push(task),
            final(self).member_names() == old(self).member_names(),
            final(self).freshly_split(),
    {
        match self.tasks.take() {
            Some(mut t) => {
                t.push(task);
                self.tasks = Some(t);
            },
            None => {
                self.tasks = Some(vec![task]);
            },
        }
        assert(self.task_seq() =~= old(self).task_seq().push(task));
        if self.members.is_some() {
            self.set_up();
        } else {
            assert(self.bundles() =~= partition(self.task_seq(), 0));
            assert(self.assignments() =~= initial_assignments(0, 0));
        }
    }

    /// Passes each member the bundle index that the next member held; the
    /// first member's index goes to the last. The bundles stay as they are.
    pub fn rotate_tasks(&mut self) -> (r: Result<(), NoDataError>)
        requires
            old(self).wf(),
        ensures
            final(self).wf(),
            r is Ok <==> (old(self).task_seq().len() > 0 && old(self).member_seq().len() > 0),
            r is Ok ==> {
                &&& final(self).name_view() == old(self).name_view()
                &&& final(self).task_seq() == old(self).task_seq()
                &&& final(self).bundles() == old(self).bundles()
                &&& final(self).member_names() == old(self).member_names()
                &&& final(self).assignments() == rotated(old(self).assignments())
            },
            r is Err ==> *final(self) == *old(self),
    {
        if !(self.tasks.is_some() && self.members.is_some()) {
            return Err(NoDataError);
        }
        let ghost before = self.assignments();
        match self.members.take() {
            Some(old_members) => {
                let n = old_members.len();
                let mut members: Vec<Member> = Vec::new();
                let mut p: usize = 0;
                while p < n
                    invariant
                        n == old_members@.len(),
                        n > 0,
                        p <= n,
                        members@.len() == p,
                        forall|i: int|
                            0 <= i < p ==> (#[trigger] members@[i]).name == old_members@[i].name
                                && members@[i].assigned_group == old_members@[(i + 1) % (
                                n as int)].assigned_group,
                    decreases n - p,
                {
                    let next = if p + 1 < n {
                        p + 1
                    } else {
                        0
                    };
                    proof {
                        if p + 1 < n {
                            vstd::arithmetic::div_mod::lemma_small_mod((p + 1) as nat, n as nat);
                        } else {
                            vstd::arithmetic::div_mod::lemma_mod_self_0(n as int);
                        }
                    }
                    members.push(
                        Member {
                            name: old_members[p].name.clone(),
                            assigned_group: old_members[next].assigned_group,
                        },
                    );
                    p += 1;
                }
                self.members = Some(members);
                proof {
                    assert(self.member_names() =~= old(self).member_names());
                    assert forall|i: int| 0 <= i < n implies #[trigger] self.assignments()[i]
                        == rotated(before)[i] by {
                        if i + 1 < n {
                            vstd::arithmetic::div_mod::lemma_small_mod((i + 1) as nat, n as nat);
                        } else {
                            vstd::arithmetic::div_mod::lemma_mod_self_0(n as int);
                        }
                    }
                    assert(self.assignments() =~= rotated(before));
                    assert forall|p: int| 0 <= p < self.member_seq().len() implies match (
                    #[trigger] self.member_seq()[p]).assigned_group {
                        Some(b) => b < self.bundles().len(),
                        None => true,
                    } by {
                        let src = (p + 1) % (n as int);
                        assert(old(self).member_seq()[src] == old_members@[src]);
                    }
                }
            },
            None => {},
        }
        Ok(())
    }

    /// Each member's name with a copy of the bundle it holds, or `None` where
    /// it holds none. Names are listed once; where two members share a name,
    /// the later member's bundle is the one listed.
    pub fn get_task_assignments(&self) -> (r: Result<Vec<(String, Option<Vec<Task>>)>, NoDataError>)
        requires
            self.wf(),
        ensures
            r is Ok <==> (self.task_seq().len() > 0 && self.member_seq().len() > 0),
            r matches Ok(entries) ==> lists_map(
                entries@,
                assignment_map(self.member_names(), self.assignments(), self.bundles()),
            ),
    {
        let groups = match &self.task_groups {
            Some(g) => g,
            None => {
                return Err(NoDataError);
            },
        };
        let members = match &self.members {
            Some(m) => m,
            None => {
                return Err(NoDataError);
            },
        };
        let ghost names = self.member_names();
        let ghost held = self.assignments();
        let ghost bundles = self.bundles();
        let mut entries: Vec<(String, Option<Vec<Task>>)> = Vec::new();
        let mut j: usize = 0;
        assert(names.take(0) =~= Seq::<String>::empty());
        while j < members.len()
            invariant
                self.wf(),
                members@ == self.member_seq(),
                bundles == bundles_view(groups@),
                bundles == self.bundles(),
                names == self.member_names(),
                held == self.assignments(),
                j <= members@.len(),
                lists_map(
                    entries@,
                    assignment_map(names.take(j as int), held.take(j as int), bundles),
                ),
            decreases members.len() - j,
        {
            let ghost before = entries@;
            let ghost prev = assignment_map(names.take(j as int), held.take(j as int), bundles);
            let name = members[j].name.clone();
            let bundle = match members[j].assigned_group {
                Some(b) => {
                    assert(self.member_seq()[j as int].assigned_group == Some(b));
                    let c = copy_tasks(&groups[b], 0, groups[b].len());
                    assert(c@ =~= groups@[b as int]@);
                    Some(c)
                },
                None => None,
            };
            let ghost k = name@;
            let ghost v = held_bundle(bundles, held[j as int]);
            assert(entry_bundle(bundle) == v);
            proof {
                assert(names.take(j + 1).drop_last() =~= names.take(j as int));
                assert(held.take(j + 1).drop_last() =~= held.take(j as int));
                assert(names.take(j + 1).last() == members@[j as int].name);
            }
            assert(assignment_map(names.take(j + 1), held.take(j + 1), bundles) == prev.insert(k, v));
            let found = find_entry(&entries, &name);
            match found {
                Some(i) => {
                    entries[i] = (name, bundle);
                    proof {
                        assert forall|a: int| 0 <= a < entries@.len() implies (
                        #[trigger] entries@[a]).0@ == before[a].0@ by {}
                        assert forall|c: Seq<char>| #[trigger]
                            prev.insert(k, v).contains_key(c) implies exists|a: int|
                            0 <= a < entries@.len() && (#[trigger] entries@[a]).0@ == c by {
                            if c == k {
                                assert(entries@[i as int].0@ == c);
                            } else {
                                assert(prev.contains_key(c));
                                let a = choose|a: int| 0 <= a < before.len() && (#[trigger] before[a]).0@ == c;
                                assert(entries@[a].0@ == c);
                            }
                        }
                    }
                },
                None => {
                    entries.push((name, bundle));
                    proof {
                        let last = before.len() as int;
                        assert forall|c: Seq<char>| #[trigger]
                            prev.insert(k, v).contains_key(c) implies exists|a: int|
                            0 <= a < entries@.len() && (#[trigger] entries@[a]).0@ == c by {
                            if c == k {
                                assert(entries@[last].0@ == c);
                            } else {
                                assert(prev.contains_key(c));
                                let a = choose|a: int| 0 <= a < before.len() && (#[trigger] before[a]).0@ == c;
                                assert(entries@[a].0@ == c);
                            }
                        }
                    }
                },
            }
            j += 1;
        }
        assert(names.take(members.len() as int) =~= names);
        assert(held.take(members.len() as int) =~= held);
        Ok(entries)
    }

    /// Discards the bundles and splits the tasks anew among the members.
    fn set_up(&mut self)
        requires
            old(self).tasks is Some,
            old(self).members is Some,
            old(self).task_seq().len() > 0,
            old(self).member_seq().len() > 0,
        ensures
            final(self).wf(),
            final(self).name == old(self).name,
            final(self).tasks == old(self).tasks,
            final(self).member_names() == old(self).member_names(),
            final(self).freshly_split(),
    {
        let member_count = count_option_vec(&self.members);
        self.task_groups = None;
        let groups = match &self.tasks {
            Some(tasks) => partition_tasks(tasks, member_count),
            None => Vec::new(),
        };
        self.task_groups = Some(groups);
        assign_task_groups(self);
        proof {
            assert(self.member_names().len() == self.member_seq().len());
            assert forall|p: int| 0 <= p < self.member_seq().len() implies match (
            #[trigger] self.member_seq()[p]).assigned_group {
                Some(b) => b < self.bundles().len(),
                None => true,
            } by {
                assert(self.assignments()[p] == self.member_seq()[p].assigned_group);
            }
        }
    }
}

/// Gives the member at each position the bundle of the same index, where
/// there is one, and no bundle otherwise.
fn assign_task_groups(group: &mut Group)
    ensures
        final(group).name == old(group).name,
        final(group).tasks == old(group).tasks,
        final(group).task_groups == old(group).task_groups,
        final(group).members is Some <==> old(group).members is Some,
        final(group).member_names() == old(group).member_names(),
        final(group).assignments() == initial_assignments(
            old(group).member_seq().len(),
            old(group).bundles().len(),
        ),
{
    let bundle_total = count_option_vec(&group.task_groups);
    proof {
        assert(group.bundles().len() == bundle_total);
    }
    match group.members.take() {
        Some(old_members) => {
            let mut members: Vec<Member> = Vec::new();
            let mut p: usize = 0;
            while p < old_members.len()
                invariant
                    p <= old_members@.len(),
                    members@.len() == p,
                    forall|i: int|
                        0 <= i < p ==> (#[trigger] members@[i]).name == old_members@[i].name
                            && members@[i].assigned_group == (if i < bundle_total {
                            Some(i as usize)
                        } else {
                            None
                        }),
                decreases old_members.len() - p,
            {
                let assigned = if p < bundle_total {
                    Some(p)
                } else {
                    None
                };
                members.push(Member { name: old_members[p].name.clone(), assigned_group: assigned });
                p += 1;
            }
            group.members = Some(members);
            assert(group.member_names() =~= old(group).member_names());
            assert(group.assignments() =~= initial_assignments(
                old(group).member_seq().len(),
                old(group).bundles().len(),
            ));
        },
        None => {
            assert(group.assignments() =~= initial_assignments(0, old(group).bundles().len()));
        },
    }
}

} // verus!

use vstd::prelude::*;

verus! {

/// A unit of work: a name and free-form detail text.
#[derive(Debug, Clone)]
pub struct Task {
    pub name: String,
    pub details: String,
}

/// A participant of a group, with the index of the bundle it holds, if any.
#[derive(Debug, Clone)]
pub struct Member {
    pub name: String,
    pub assigned_group: Option<usize>,
}

impl Task {
    pub fn new(name: String, details: String) -> (r: Task)
        ensures
            r.name == name,
            r.details == details,
    {
        Task { name, details }
    }

    /// A field-by-field copy, equal to the original.
    pub fn duplicate(&self) -> (r: Task)
        ensures
            r == *self,
    {
        Task { name: self.name.clone(), details: self.details.clone() }
    }
}

/// Copies a list of tasks, keeping their order.
pub(crate) fn copy_tasks(tasks: &Vec<Task>, start: usize, end: usize) -> (r: Vec<Task>)
    requires
        start <= end <= tasks@.len(),
    ensures
        r@ == tasks@.subrange(start as int, end as int),
{
    let mut r: Vec<Task> = Vec::new();
    let mut i: usize = start;
    while i < end
        invariant
            start <= i <= end <= tasks@.len(),
            r@ == tasks@.subrange(start as int, i as int),
        decreases end - i,
    {
        r.push(tasks[i].duplicate());
        i += 1;
    }
    r
}

/// The character of a decimal digit.
pub open spec fn digit_char(d: nat) -> char {
    if d == 0 { '0' }
    else if d == 1 { '1' }
    else if d == 2 { '2' }
    else if d == 3 { '3' }
    else if d == 4 { '4' }
    else if d == 5 { '5' }
    else if d == 6 { '6' }
    else if d == 7 { '7' }
    else if d == 8 { '8' }
    else { '9' }
}

/// The decimal representation of `n`, without leading zeros.
pub open spec fn decimal(n: nat) -> Seq<char>
    decreases n,
{
    if n < 10 {
        seq![digit_char(n)]
    } else {
        decimal(n / 10) + seq![digit_char(n % 10)]
    }
}

/// Relies on std's formatting of `usize` through `Display`: the number is
/// written in decimal between the two pieces of text.
#[verifier::external_body]
fn embed_number(before: &str, n: usize, after: &str) -> (r: String)
    ensures
        r@ == before@ + decimal(n as nat) + after@,
{
    format!("{}{}{}", before, n, after)
}

/// The name of the `num`-th sample task.
pub open spec fn sample_task_name(num: nat) -> Seq<char> {
    "task "@ + decimal(num)
}

/// The detail text of the `num`-th sample task.
pub open spec fn sample_task_details(num: nat) -> Seq<char> {
    "Do not forget to do task: "@ + decimal(num) + " it in the morning"@
}

/// The name of the `num`-th sample member.
pub open spec fn sample_member_name(num: nat) -> Seq<char> {
    "Member "@ + decimal(num)
}

/// Sample tasks `task 1` to `task n`.
pub fn create_tasks(n: usize) -> (r: Vec<Task>)
    requires
        n < usize::MAX,
    ensures
        r@.len() == n,
        forall|i: int|
            0 <= i < n ==> {
                &&& (#[trigger] r@[i]).name@ == sample_task_name((i + 1) as nat)
                &&& r@[i].details@ == sample_task_details((i + 1) as nat)
            },
{
    let mut tasks: Vec<Task> = Vec::new();
    let mut num: usize = 1;
    while num < n + 1
        invariant
            1 <= num <= n + 1,
            n < usize::MAX,
            tasks@.len() == num - 1,
            forall|i: int|
                0 <= i < num - 1 ==> {
                    &&& (#[trigger] tasks@[i]).name@ == sample_task_name((i + 1) as nat)
                    &&& tasks@[i].details@ == sample_task_details((i + 1) as nat)
                },
        decreases n + 1 - num,
    {
        let name = embed_number("task ", num, "");
        let details = embed_number("Do not forget to do task: ", num, " it in the morning");
        proof {
            reveal_strlit("");
            assert(name@ =~= sample_task_name(num as nat));
        }
        tasks.push(Task { name, details });
        num += 1;
    }
    tasks
}

/// Sample member names `Member 1` to `Member n`.
pub fn create_members(n: usize) -> (r: Vec<String>)
    requires
        n < usize::MAX,
    ensures
        r@.len() == n,
        forall|i: int| 0 <= i < n ==> (#[trigger] r@[i])@ == sample_member_name((i + 1) as nat),
{
    let mut members: Vec<String> = Vec::new();
    let mut num: usize = 1;
    while num < n + 1
        invariant
            1 <= num <= n + 1,
            n < usize::MAX,
            members@.len() == num - 1,
            forall|i: int|
                0 <= i < num - 1 ==> (#[trigger] members@[i])@ == sample_member_name(
                    (i + 1) as nat,
                ),
        decreases n + 1 - num,
    {
        let name = embed_number("Member ", num, "");
        proof {
            reveal_strlit("");
            assert(name@ =~= sample_member_name(num as nat));
        }
        members.push(name);
        num += 1;
    }
    members
}

} // verus!

//! Monkeys that each call a number or the result of a sum of what two
//! other monkeys call.

use vstd::prelude::*;
use vstd::string::StringSliceAdditionalSpecFns;
use crate::text::{chars_of, find_byte, is_ascii_bytes, next_byte, parse_isize, signed_value, text_between};

verus! {

/// What a monkey calls: a number, or what comes of the numbers of two
/// monkeys, who are known by name.
#[derive(Debug)]
pub enum Node {
    Number(isize),
    Add(String, String),
    Sub(String, String),
    Mul(String, String),
    Div(String, String),
}

/// What a monkey calls, the names as sequences of characters.
pub enum Job {
    Number(isize),
    Add(Seq<char>, Seq<char>),
    Sub(Seq<char>, Seq<char>),
    Mul(Seq<char>, Seq<char>),
    Div(Seq<char>, Seq<char>),
}

impl Job {
    /// The names of the two monkeys whose numbers are used, if any are.
    pub open spec fn operands(self) -> Option<(Seq<char>, Seq<char>)> {
        match self {
            Job::Number(_) => None,
            Job::Add(l, r) => Some((l, r)),
            Job::Sub(l, r) => Some((l, r)),
            Job::Mul(l, r) => Some((l, r)),
            Job::Div(l, r) => Some((l, r)),
        }
    }

    /// Whether the number of the monkey of the given name is used.
    pub open spec fn uses(self, name: Seq<char>) -> bool {
        match self.operands() {
            Some((l, r)) => l == name || r == name,
            None => false,
        }
    }

    /// What comes of the two numbers; `None` where nothing does within the
    /// machine's integers.
    pub open spec fn apply(self, l: isize, r: isize) -> Option<isize> {
        match self {
            Job::Number(n) => Some(n),
            Job::Add(_, _) => l.checked_add(r),
            Job::Sub(_, _) => l.checked_sub(r),
            Job::Mul(_, _) => l.checked_mul(r),
            Job::Div(_, _) => l.checked_div(r),
        }
    }
}

impl Node {
    /// The job with the names as sequences of characters.
    pub open spec fn job(&self) -> Job {
        match self {
            Node::Number(n) => Job::Number(*n),
            Node::Add(l, r) => Job::Add(l@, r@),
            Node::Sub(l, r) => Job::Sub(l@, r@),
            Node::Mul(l, r) => Job::Mul(l@, r@),
            Node::Div(l, r) => Job::Div(l@, r@),
        }
    }

    /// Whether the number of the monkey of the given name is used.
    pub fn has_dependent(&self, name: &String) -> (yes: bool)
        ensures
            yes == self.job().uses(name@),
    {
        match self {
            Node::Number(_) => false,
            Node::Add(l, r) | Node::Sub(l, r) | Node::Mul(l, r) | Node::Div(l, r) => *l == *name
                || *r == *name,
        }
    }

    /// What comes of the two numbers.
    pub fn combine(&self, l: isize, r: isize) -> (result: Option<isize>)
        ensures
            result == self.job().apply(l, r),
    {
        match self {
            Node::Number(n) => Some(*n),
            Node::Add(_, _) => l.checked_add(r),
            Node::Sub(_, _) => l.checked_sub(r),
            Node::Mul(_, _) => l.checked_mul(r),
            Node::Div(_, _) => l.checked_div(r),
        }
    }
}

/// The names and jobs of a list of monkeys.
pub open spec fn jobs_of(lookup: Seq<(String, Node)>) -> Seq<(Seq<char>, Job)> {
    Seq::new(lookup.len(), |i: int| (lookup[i].0@, lookup[i].1.job()))
}

/// The place of the first monkey of the given name from `from` on, or the
/// length of the list if there is none.
pub open spec fn place_of(jobs: Seq<(Seq<char>, Job)>, name: Seq<char>, from: int) -> int
    decreases jobs.len() - from,
{
    if from >= jobs.len() {
        jobs.len() as int
    } else if jobs[from].0 == name {
        from
    } else {
        place_of(jobs, name, from + 1)
    }
}

/// The job of the monkey of the given name, if there is one.
pub open spec fn job_of(jobs: Seq<(Seq<char>, Job)>, name: Seq<char>) -> Option<Job> {
    if 0 <= place_of(jobs, name, 0) < jobs.len() {
        Some(jobs[place_of(jobs, name, 0)].1)
    } else {
        None
    }
}

/// The number that the monkey of the given name calls, worked out
/// through at most `depth` monkeys one after the other; `None` where a
/// monkey is missing, a number does not fit, or the depth does not do.
pub open spec fn number_of(jobs: Seq<(Seq<char>, Job)>, name: Seq<char>, depth: nat) -> Option<isize>
    decreases depth,
{
    if depth == 0 {
        None
    } else {
        match job_of(jobs, name) {
            None => None,
            Some(job) => match job.operands() {
                None => job.apply(0, 0),
                Some((l, r)) => match (
                    number_of(jobs, l, (depth - 1) as nat),
                    number_of(jobs, r, (depth - 1) as nat),
                ) {
                    (Some(a), Some(b)) => job.apply(a, b),
                    _ => None,
                },
            },
        }
    }
}

/// The place in the list of the first monkey of the given name.
pub fn find(lookup: &Vec<(String, Node)>, name: &String) -> (place: Option<usize>)
    ensures
        match place {
            Some(i) => i < lookup@.len() && i == place_of(jobs_of(lookup@), name@, 0)
                && job_of(jobs_of(lookup@), name@) == Some(lookup@[i as int].1.job()),
            None => job_of(jobs_of(lookup@), name@) is None,
        },
{
    let ghost jobs = jobs_of(lookup@);
    let mut i: usize = 0;
    while i < lookup.len()
        invariant
            i <= lookup@.len(),
            jobs == jobs_of(lookup@),
            place_of(jobs, name@, 0) == place_of(jobs, name@, i as int),
        decreases lookup@.len() - i,
    {
        if lookup[i].0 == *name {
            return Some(i);
        }
        i += 1;
    }
    None
}

/// The names of the two monkeys whose numbers the monkey uses.
pub fn operands_of(node: &Node) -> (names: Option<(&String, &String)>)
    ensures
        match names {
            Some((l, r)) => node.job().operands() == Some((l@, r@)),
            None => node.job().operands() is None,
        },
{
    match node {
        Node::Number(_) => None,
        Node::Add(l, r) | Node::Sub(l, r) | Node::Mul(l, r) | Node::Div(l, r) => Some((l, r)),
    }
}

/// The number that the monkey of the given name calls, worked out
/// through at most `depth` monkeys one after the other.
pub fn calculate_within(name: &String, lookup: &Vec<(String, Node)>, depth: usize) -> (number: Option<
    isize,
>)
    ensures
        number == number_of(jobs_of(lookup@), name@, depth as nat),
    decreases depth,
{
    if depth == 0 {
        return None;
    }
    match find(lookup, name) {
        None => None,
        Some(i) => {
            let node = &lookup[i].1;
            match operands_of(node) {
                None => node.combine(0, 0),
                Some((l, r)) => {
                    let a = calculate_within(l, lookup, depth - 1);
                    let b = calculate_within(r, lookup, depth - 1);
                    match (a, b) {
                        (Some(a), Some(b)) => node.combine(a, b),
                        _ => None,
                    }
                },
            }
        },
    }
}

/// The number that the monkey of the given name calls; `None` where a
/// monkey is missing, a number does not fit, or the monkeys wait for each
/// other in a ring.
pub fn calculate(name: &String, lookup: &Vec<(String, Node)>) -> (number: Option<isize>)
    ensures
        number == number_of(jobs_of(lookup@), name@, lookup@.len()),
{
    calculate_within(name, lookup, lookup.len())
}

/// The name of the monkey at the root.
pub fn root_name() -> (name: String)
    ensures
        name@ == "root"@,
{
    "root".to_owned()
}

/// The name of the one who is no monkey.
pub fn humn_name() -> (name: String)
    ensures
        name@ == "humn"@,
{
    "humn".to_owned()
}

/// The two numbers; `None` unless both are there.
pub open spec fn both(a: Option<isize>, b: Option<isize>) -> Option<(isize, isize)> {
    match (a, b) {
        (Some(a), Some(b)) => Some((a, b)),
        _ => None,
    }
}

/// The numbers that the two monkeys call whose numbers the root uses.
pub open spec fn root_operands(jobs: Seq<(Seq<char>, Job)>) -> Option<(isize, isize)> {
    match job_of(jobs, "root"@) {
        Some(job) => match job.operands() {
            Some((l, r)) => both(
                number_of(jobs, l, jobs.len()),
                number_of(jobs, r, jobs.len()),
            ),
            None => None,
        },
        None => None,
    }
}

/// The numbers that the two monkeys call whose numbers the root uses.
pub fn get_root_operands(lookup: &Vec<(String, Node)>) -> (numbers: Option<(isize, isize)>)
    ensures
        numbers == root_operands(jobs_of(lookup@)),
{
    let root = root_name();
    match find(lookup, &root) {
        None => None,
        Some(i) => match operands_of(&lookup[i].1) {
            None => None,
            Some((l, r)) => {
                let a = calculate(l, lookup);
                let b = calculate(r, lookup);
                match (a, b) {
                    (Some(a), Some(b)) => Some((a, b)),
                    _ => None,
                }
            },
        },
    }
}

/// How many of the first `n` monkeys use the number of the one named.
pub open spec fn users(jobs: Seq<(Seq<char>, Job)>, name: Seq<char>, n: nat) -> nat
    decreases n,
{
    if n == 0 {
        0
    } else {
        users(jobs, name, (n - 1) as nat) + if jobs[n - 1].1.uses(name) {
            1nat
        } else {
            0nat
        }
    }
}

/// The place of the last of the first `n` monkeys that uses the number of
/// the one named; -1 if none does.
pub open spec fn last_user(jobs: Seq<(Seq<char>, Job)>, name: Seq<char>, n: nat) -> int
    decreases n,
{
    if n == 0 {
        -1
    } else if jobs[n - 1].1.uses(name) {
        n - 1
    } else {
        last_user(jobs, name, (n - 1) as nat)
    }
}

/// The name of the only monkey that uses the number of the one named;
/// `None` if none does or more than one.
pub open spec fn sole_user(jobs: Seq<(Seq<char>, Job)>, name: Seq<char>) -> Option<Seq<char>> {
    if users(jobs, name, jobs.len()) == 1 {
        Some(jobs[last_user(jobs, name, jobs.len())].0)
    } else {
        None
    }
}

/// The names from the one given up to, not including, the root, each the
/// only user of the number of the one before; `None` where a number has
/// no user or several, or where `depth` steps do not lead to the root.
pub open spec fn chain(jobs: Seq<(Seq<char>, Job)>, name: Seq<char>, depth: nat) -> Option<
    Seq<Seq<char>>,
>
    decreases depth,
{
    if name == "root"@ {
        Some(Seq::empty())
    } else if depth == 0 {
        None
    } else {
        match sole_user(jobs, name) {
            None => None,
            Some(next) => match chain(jobs, next, (depth - 1) as nat) {
                Some(rest) => Some(seq![name] + rest),
                None => None,
            },
        }
    }
}

/// The names of a list of strings.
pub open spec fn names_of(list: Seq<String>) -> Seq<Seq<char>> {
    Seq::new(list.len(), |i: int| list[i]@)
}

/// The place in the list of the only monkey that uses the number of the
/// one named.
pub fn find_sole_user(lookup: &Vec<(String, Node)>, name: &String) -> (place: Option<usize>)
    ensures
        match place {
            Some(i) => i < lookup@.len() && sole_user(jobs_of(lookup@), name@) == Some(
                lookup@[i as int].0@,
            ),
            None => sole_user(jobs_of(lookup@), name@) is None,
        },
{
    let ghost jobs = jobs_of(lookup@);
    let mut count: usize = 0;
    let mut last: usize = 0;
    let mut i: usize = 0;
    while i < lookup.len()
        invariant
            i <= lookup@.len(),
            jobs == jobs_of(lookup@),
            count == users(jobs, name@, i as nat),
            count <= i,
            count > 0 ==> last == last_user(jobs, name@, i as nat) && last < i,
        decreases lookup@.len() - i,
    {
        if lookup[i].1.has_dependent(name) {
            count += 1;
            last = i;
        }
        i += 1;
    }
    if count == 1 {
        Some(last)
    } else {
        None
    }
}

/// The names from `humn` up to, not including, the root, each the name of
/// the only monkey that uses the number of the one before.
pub fn find_humn_dependents(lookup: &Vec<(String, Node)>) -> (dependents: Option<Vec<String>>)
    ensures
        match dependents {
            Some(list) => chain(jobs_of(lookup@), "humn"@, lookup@.len()) == Some(names_of(list@)),
            None => chain(jobs_of(lookup@), "humn"@, lookup@.len()) is None,
        },
{
    let ghost jobs = jobs_of(lookup@);
    let root = root_name();
    let mut dependents: Vec<String> = Vec::new();
    let mut cur = humn_name();
    let mut steps: usize = 0;
    assert(names_of(dependents@) =~= Seq::empty());
    loop
        invariant
            steps <= lookup@.len(),
            jobs == jobs_of(lookup@),
            root@ == "root"@,
            match chain(jobs, cur@, (lookup@.len() - steps) as nat) {
                Some(rest) => chain(jobs, "humn"@, lookup@.len()) == Some(
                    names_of(dependents@) + rest,
                ),
                None => chain(jobs, "humn"@, lookup@.len()) is None,
            },
        decreases lookup@.len() - steps,
    {
        if cur == root {
            assert(names_of(dependents@) + Seq::<Seq<char>>::empty() =~= names_of(dependents@));
            return Some(dependents);
        }
        if steps >= lookup.len() {
            return None;
        }
        match find_sole_user(lookup, &cur) {
            None => {
                return None;
            },
            Some(i) => {
                let next = lookup[i].0.clone();
                let ghost before = names_of(dependents@);
                let ghost name = cur@;
                dependents.push(cur);
                proof {
                    assert(names_of(dependents@) =~= before + seq![name]);
                    let left = (lookup@.len() - steps - 1) as nat;
                    if chain(jobs, next@, left) is Some {
                        let rest = chain(jobs, next@, left).unwrap();
                        assert(before + (seq![name] + rest) =~= names_of(dependents@) + rest);
                    }
                }
                cur = next;
                steps += 1;
            },
        }
    }
}

/// What the operand on the `humn` side must be for the job to give
/// `result`, the other operand being `other`, on the right if `left` says
/// that the `humn` side is the left one.
pub open spec fn needed(job: Job, result: isize, other: isize, left: bool) -> Option<isize> {
    match job {
        Job::Number(_) => None,
        Job::Add(_, _) => result.checked_sub(other),
        Job::Sub(_, _) => if left {
            result.checked_add(other)
        } else {
            other.checked_sub(result)
        },
        Job::Mul(_, _) => result.checked_div(other),
        Job::Div(_, _) => if left {
            result.checked_mul(other)
        } else {
            other.checked_div(result)
        },
    }
}

/// The number that `humn` must call for the monkey of the given name to
/// call `result`, worked out through at most `depth` monkeys one after
/// the other, `deps` being the names that depend on `humn`; `None` where
/// a monkey is missing, both or neither of two operands depend on `humn`,
/// a number does not fit, or the depth does not do.
pub open spec fn humn_for(
    jobs: Seq<(Seq<char>, Job)>,
    deps: Seq<Seq<char>>,
    name: Seq<char>,
    result: isize,
    depth: nat,
) -> Option<isize>
    decreases depth,
{
    if name == "humn"@ {
        Some(result)
    } else if depth == 0 {
        None
    } else {
        match job_of(jobs, name) {
            None => None,
            Some(job) => match job.operands() {
                None => job.apply(0, 0),
                Some((l, r)) => if deps.contains(l) && !deps.contains(r) {
                    match number_of(jobs, r, jobs.len()) {
                        Some(other) => match needed(job, result, other, true) {
                            Some(wanted) => humn_for(jobs, deps, l, wanted, (depth - 1) as nat),
                            None => None,
                        },
                        None => None,
                    }
                } else if !deps.contains(l) && deps.contains(r) {
                    match number_of(jobs, l, jobs.len()) {
                        Some(other) => match needed(job, result, other, false) {
                            Some(wanted) => humn_for(jobs, deps, r, wanted, (depth - 1) as nat),
                            None => None,
                        },
                        None => None,
                    }
                } else {
                    None
                },
            },
        }
    }
}

/// The number that `humn` must call for the two operands of the root to
/// be the same.
pub open spec fn humn_for_root(jobs: Seq<(Seq<char>, Job)>, deps: Seq<Seq<char>>) -> Option<isize> {
    match job_of(jobs, "root"@) {
        None => None,
        Some(job) => match job.operands() {
            None => None,
            Some((l, r)) => if deps.contains(l) && !deps.contains(r) {
                match number_of(jobs, r, jobs.len()) {
                    Some(other) => humn_for(jobs, deps, l, other, jobs.len()),
                    None => None,
                }
            } else if !deps.contains(l) && deps.contains(r) {
                match number_of(jobs, l, jobs.len()) {
                    Some(other) => humn_for(jobs, deps, r, other, jobs.len()),
                    None => None,
                }
            } else {
                None
            },
        },
    }
}

/// Whether the list holds the name.
pub fn holds(list: &Vec<String>, name: &String) -> (yes: bool)
    ensures
        yes == names_of(list@).contains(name@),
{
    let mut i: usize = 0;
    while i < list.len()
        invariant
            i <= list@.len(),
            forall|k: int| 0 <= k < i ==> names_of(list@)[k] != name@,
        decreases list@.len() - i,
    {
        if list[i] == *name {
            assert(names_of(list@)[i as int] == name@);
            return true;
        }
        i += 1;
    }
    false
}

/// What the operand on the `humn` side must be for the job to give
/// `result`.
pub fn needed_operand(node: &Node, result: isize, other: isize, left: bool) -> (wanted: Option<isize>)
    ensures
        wanted == needed(node.job(), result, other, left),
{
    match node {
        Node::Number(_) => None,
        Node::Add(_, _) => result.checked_sub(other),
        Node::Sub(_, _) => if left {
            result.checked_add(other)
        } else {
            other.checked_sub(result)
        },
        Node::Mul(_, _) => result.checked_div(other),
        Node::Div(_, _) => if left {
            result.checked_mul(other)
        } else {
            other.checked_div(result)
        },
    }
}

/// The number that `humn` must call for the monkey of the given name to
/// call `result`, worked out through at most `depth` monkeys.
pub fn invert_within(
    result: isize,
    name: &String,
    lookup: &Vec<(String, Node)>,
    humn_dependents: &Vec<String>,
    depth: usize,
) -> (humn: Option<isize>)
    ensures
        humn == humn_for(
            jobs_of(lookup@),
            names_of(humn_dependents@),
            name@,
            result,
            depth as nat,
        ),
    decreases depth,
{
    let humn = humn_name();
    if *name == humn {
        return Some(result);
    }
    if depth == 0 {
        return None;
    }
    match find(lookup, name) {
        None => None,
        Some(i) => {
            let node = &lookup[i].1;
            match operands_of(node) {
                None => node.combine(0, 0),
                Some((l, r)) => {
                    let on_left = holds(humn_dependents, l);
                    let on_right = holds(humn_dependents, r);
                    if on_left && !on_right {
                        match calculate(r, lookup) {
                            Some(other) => match needed_operand(node, result, other, true) {
                                Some(wanted) => invert_within(
                                    wanted,
                                    l,
                                    lookup,
                                    humn_dependents,
                                    depth - 1,
                                ),
                                None => None,
                            },
                            None => None,
                        }
                    } else if !on_left && on_right {
                        match calculate(l, lookup) {
                            Some(other) => match needed_operand(node, result, other, false) {
                                Some(wanted) => invert_within(
                                    wanted,
                                    r,
                                    lookup,
                                    humn_dependents,
                                    depth - 1,
                                ),
                                None => None,
                            },
                            None => None,
                        }
                    } else {
                        None
                    }
                },
            }
        },
    }
}

/// The number that `humn` must call for the monkey of the given name to
/// call `result`.
pub fn invert_to_humn(
    result: isize,
    name: &String,
    lookup: &Vec<(String, Node)>,
    humn_dependents: &Vec<String>,
) -> (humn: Option<isize>)
    ensures
        humn == humn_for(
            jobs_of(lookup@),
            names_of(humn_dependents@),
            name@,
            result,
            lookup@.len(),
        ),
{
    invert_within(result, name, lookup, humn_dependents, lookup.len())
}

/// The number that `humn` must call for the two operands of the root to
/// be the same.
pub fn invert_root(lookup: &Vec<(String, Node)>, humn_dependents: &Vec<String>) -> (humn: Option<isize>)
    ensures
        humn == humn_for_root(jobs_of(lookup@), names_of(humn_dependents@)),
{
    let root = root_name();
    match find(lookup, &root) {
        None => None,
        Some(i) => match operands_of(&lookup[i].1) {
            None => None,
            Some((l, r)) => {
                let on_left = holds(humn_dependents, l);
                let on_right = holds(humn_dependents, r);
                if on_left && !on_right {
                    match calculate(r, lookup) {
                        Some(other) => invert_to_humn(other, l, lookup, humn_dependents),
                        None => None,
                    }
                } else if !on_left && on_right {
                    match calculate(l, lookup) {
                        Some(other) => invert_to_humn(other, r, lookup, humn_dependents),
                        None => None,
                    }
                } else {
                    None
                }
            },
        },
    }
}

/// The byte that ends a line.
pub const NEWLINE: u8 = 10;

/// The job that the sign stands for, done on the numbers of the two
/// monkeys named; `None` if the byte is no sign.
pub open spec fn job_of_sign(sign: u8, l: Seq<char>, r: Seq<char>) -> Option<Job> {
    if sign == 43 {
        Some(Job::Add(l, r))
    } else if sign == 45 {
        Some(Job::Sub(l, r))
    } else if sign == 42 {
        Some(Job::Mul(l, r))
    } else if sign == 47 {
        Some(Job::Div(l, r))
    } else {
        None
    }
}

/// The name and the job that a line tells of: four bytes of name, two
/// bytes that are passed over, and then a numeral, or four bytes of name,
/// a space, a sign, a space and a name.
pub open spec fn monkey_of(line: Seq<u8>) -> Option<(Seq<char>, Job)> {
    if line.len() < 6 || !is_ascii_bytes(line) {
        None
    } else {
        let name = chars_of(line.subrange(0, 4));
        let expression = line.subrange(6, line.len() as int);
        match signed_value(expression) {
            Some(v) if isize::MIN <= v <= isize::MAX => Some((name, Job::Number(v as isize))),
            _ => if expression.len() < 7 {
                None
            } else {
                match job_of_sign(
                    expression[5],
                    chars_of(expression.subrange(0, 4)),
                    chars_of(expression.subrange(7, expression.len() as int)),
                ) {
                    Some(job) => Some((name, job)),
                    None => None,
                }
            },
        }
    }
}

/// The list with the job put under the name: in place of the job that the
/// name had, or at the end.
pub open spec fn put(jobs: Seq<(Seq<char>, Job)>, name: Seq<char>, job: Job) -> Seq<
    (Seq<char>, Job),
> {
    let at = place_of(jobs, name, 0);
    if 0 <= at < jobs.len() {
        jobs.update(at, (name, job))
    } else {
        jobs.push((name, job))
    }
}

/// The monkeys that the lines of the text from `from` on tell of, put one
/// by one into the list; `None` if a line tells of none.
pub open spec fn monkeys_from(s: Seq<u8>, from: int, jobs: Seq<(Seq<char>, Job)>) -> Option<
    Seq<(Seq<char>, Job)>,
>
    decreases s.len() - from,
{
    if from >= s.len() || from < 0 {
        Some(jobs)
    } else {
        let end = next_byte(s, NEWLINE, from);
        if end < from {
            None
        } else {
            match monkey_of(s.subrange(from, end)) {
                None => None,
                Some((name, job)) => if end >= s.len() {
                    Some(put(jobs, name, job))
                } else {
                    monkeys_from(s, end + 1, put(jobs, name, job))
                },
            }
        }
    }
}

/// The name and the job that the line from `from` up to `to` tells of.
pub fn read_monkey(bytes: &[u8], from: usize, to: usize) -> (monkey: Option<(String, Node)>)
    requires
        from <= to <= bytes@.len(),
    ensures
        match monkey {
            Some((name, node)) => monkey_of(bytes@.subrange(from as int, to as int)) == Some(
                (name@, node.job()),
            ),
            None => monkey_of(bytes@.subrange(from as int, to as int)) is None,
        },
{
    let ghost line = bytes@.subrange(from as int, to as int);
    if to - from < 6 {
        return None;
    }
    let whole = text_between(bytes, from, to);
    if whole.is_none() {
        return None;
    }
    let ghost expression = line.subrange(6, line.len() as int);
    proof {
        assert(bytes@.subrange(from as int, from + 4) =~= line.subrange(0, 4));
        assert(bytes@.subrange(from + 6, to as int) =~= expression);
        assert(is_ascii_bytes(line.subrange(0, 4)));
    }
    let name = match text_between(bytes, from, from + 4) {
        Some(name) => name,
        None => {
            return None;
        },
    };
    let rest = crate::text::copy_part(bytes, from + 6, to);
    match parse_isize(rest.as_slice()) {
        Some(number) => {
            return Some((name, Node::Number(number)));
        },
        None => {},
    }
    if to - from < 13 {
        return None;
    }
    proof {
        assert(bytes@.subrange(from + 6, from + 10) =~= expression.subrange(0, 4));
        assert(bytes@.subrange(from + 13, to as int) =~= expression.subrange(
            7,
            expression.len() as int,
        ));
        assert(is_ascii_bytes(expression.subrange(0, 4)));
        assert(is_ascii_bytes(expression.subrange(7, expression.len() as int)));
        assert(bytes@[from + 11] == expression[5]);
    }
    let lhs = match text_between(bytes, from + 6, from + 10) {
        Some(lhs) => lhs,
        None => {
            return None;
        },
    };
    let rhs = match text_between(bytes, from + 13, to) {
        Some(rhs) => rhs,
        None => {
            return None;
        },
    };
    let sign = bytes[from + 11];
    if sign == 43 {
        Some((name, Node::Add(lhs, rhs)))
    } else if sign == 45 {
        Some((name, Node::Sub(lhs, rhs)))
    } else if sign == 42 {
        Some((name, Node::Mul(lhs, rhs)))
    } else if sign == 47 {
        Some((name, Node::Div(lhs, rhs)))
    } else {
        None
    }
}

/// Puts the job under the name: in place of the job that the name had, or
/// at the end of the list.
pub fn put_monkey(lookup: &mut Vec<(String, Node)>, name: String, node: Node)
    ensures
        jobs_of(final(lookup)@) == put(jobs_of(old(lookup)@), name@, node.job()),
{
    let ghost before = jobs_of(lookup@);
    let ghost entry = (name@, node.job());
    match find(lookup, &name) {
        Some(i) => {
            lookup.set(i, (name, node));
            assert(jobs_of(lookup@) =~= before.update(i as int, entry));
        },
        None => {
            lookup.push((name, node));
            assert(jobs_of(lookup@) =~= before.push(entry));
        },
    }
}

/// The monkeys that the lines of the text tell of; `None` if a line tells
/// of none.
pub fn parse(input: &str) -> (lookup: Option<Vec<(String, Node)>>)
    ensures
        match lookup {
            Some(list) => monkeys_from(input.spec_bytes(), 0, Seq::empty()) == Some(jobs_of(list@)),
            None => monkeys_from(input.spec_bytes(), 0, Seq::empty()) is None,
        },
{
    let bytes = input.as_bytes();
    let ghost s = bytes@;
    let mut lookup: Vec<(String, Node)> = Vec::new();
    let mut from: usize = 0;
    assert(jobs_of(lookup@) =~= Seq::empty());
    while from < bytes.len()
        invariant
            s == bytes@,
            s == input.spec_bytes(),
            monkeys_from(s, 0, Seq::empty()) == monkeys_from(s, from as int, jobs_of(lookup@)),
        decreases bytes@.len() - from,
    {
        let end = find_byte(bytes, NEWLINE, from);
        match read_monkey(bytes, from, end) {
            None => {
                return None;
            },
            Some((name, node)) => {
                put_monkey(&mut lookup, name, node);
            },
        }
        if end == bytes.len() {
            return Some(lookup);
        }
        from = end + 1;
    }
    Some(lookup)
}

/// Whether the two operands of the root are the same once `humn` calls
/// the number `v`.
pub open spec fn balances(jobs: Seq<(Seq<char>, Job)>, v: isize) -> bool {
    match root_operands(put(jobs, "humn"@, Job::Number(v))) {
        Some((l, r)) => l == r,
        None => false,
    }
}

/// The distance between two numbers.
pub open spec fn apart(a: int, b: int) -> int {
    if a <= b {
        b - a
    } else {
        a - b
    }
}

/// The first place of a name is the place before which the name does not
/// stand and at which it stands, or the end of the list.
pub proof fn lemma_place_of(jobs: Seq<(Seq<char>, Job)>, name: Seq<char>, from: int, p: int)
    requires
        0 <= from <= p <= jobs.len(),
        forall|k: int| from <= k < p ==> (#[trigger] jobs[k]).0 != name,
        p < jobs.len() ==> jobs[p].0 == name,
    ensures
        place_of(jobs, name, from) == p,
    decreases p - from,
{
    if from < p {
        lemma_place_of(jobs, name, from + 1, p);
    }
}

/// Before the first place of a name the name does not stand.
pub proof fn lemma_first_place(jobs: Seq<(Seq<char>, Job)>, name: Seq<char>, from: int)
    requires
        0 <= from <= jobs.len(),
    ensures
        from <= place_of(jobs, name, from) <= jobs.len(),
        forall|k: int| from <= k < place_of(jobs, name, from) ==> (#[trigger] jobs[k]).0 != name,
        place_of(jobs, name, from) < jobs.len() ==> jobs[place_of(jobs, name, from)].0 == name,
    decreases jobs.len() - from,
{
    if from < jobs.len() && jobs[from].0 != name {
        lemma_first_place(jobs, name, from + 1);
    }
}

/// A job put under a name takes the place of a job put there before.
pub proof fn lemma_put_twice(jobs: Seq<(Seq<char>, Job)>, name: Seq<char>, a: Job, b: Job)
    ensures
        put(put(jobs, name, a), name, b) == put(jobs, name, b),
{
    let at = place_of(jobs, name, 0);
    let once = put(jobs, name, a);
    lemma_first_place(jobs, name, 0);
    assert forall|k: int| 0 <= k < at implies (#[trigger] once[k]).0 != name by {
        assert(once[k] == jobs[k]);
    }
    lemma_place_of(once, name, 0, at);
    assert(put(once, name, b) =~= put(jobs, name, b));
}

/// The two operands of the root once `humn` calls the number `v`.
pub open spec fn weighed(jobs: Seq<(Seq<char>, Job)>, v: isize) -> Option<(isize, isize)> {
    root_operands(put(jobs, "humn"@, Job::Number(v)))
}

/// The two numbers between which the search goes on once the doubling has
/// ended: `upper` is tried, and while the left operand of the root is the
/// greater, `upper` becomes the lower number and its double is tried next.
/// `None` where an operand is missing or a double does not fit.
pub open spec fn doubled(jobs: Seq<(Seq<char>, Job)>, lower: isize, upper: isize) -> Option<
    (isize, isize),
>
    decreases isize::MAX - apart(0, upper as int) + 1,
{
    match weighed(jobs, upper) {
        None => None,
        Some((l, r)) => if l <= r {
            Some((lower, upper))
        } else if upper == 0 || 2 * upper < isize::MIN || 2 * upper > isize::MAX {
            None
        } else {
            doubled(jobs, upper, (2 * upper) as isize)
        },
    }
}

/// The number half way between the two.
pub open spec fn midpoint(lower: isize, upper: isize) -> isize {
    if lower <= upper {
        (lower + (upper - lower) / 2) as isize
    } else {
        (upper + (lower - upper) / 2) as isize
    }
}

/// What the halving finds between `lower` and `upper`: the number half
/// way, if the operands of the root are the same for it; else what the
/// halving finds with that number in place of `lower`, if the left operand
/// is the greater, or in place of `upper`, if it is the smaller. `None`
/// where an operand is missing, or where the number half way is the one
/// in whose place it would be put.
pub open spec fn halved(jobs: Seq<(Seq<char>, Job)>, lower: isize, upper: isize) -> Option<isize>
    decreases apart(lower as int, upper as int),
{
    let test = midpoint(lower, upper);
    match weighed(jobs, test) {
        None => None,
        Some((l, r)) => if l == r {
            Some(test)
        } else if l > r {
            if test == lower {
                None
            } else {
                halved(jobs, test, upper)
            }
        } else {
            if test == upper {
                None
            } else {
                halved(jobs, lower, test)
            }
        },
    }
}

/// What the search finds when the doubling starts with `lower` and
/// `upper`.
pub open spec fn searched_from(jobs: Seq<(Seq<char>, Job)>, lower: isize, upper: isize) -> Option<
    isize,
> {
    match doubled(jobs, lower, upper) {
        Some((lo, hi)) => halved(jobs, lo, hi),
        None => None,
    }
}

/// What the search finds: the doubling starts with the number that `humn`
/// calls and with its double, or with 1 where that is 0. `None` where
/// `humn` calls no number or its double does not fit.
pub open spec fn searched(jobs: Seq<(Seq<char>, Job)>) -> Option<isize> {
    match job_of(jobs, "humn"@) {
        Some(Job::Number(n)) => if 2 * n < isize::MIN || 2 * n > isize::MAX {
            None
        } else if n == 0 {
            searched_from(jobs, n, 1)
        } else {
            searched_from(jobs, n, (2 * n) as isize)
        },
        _ => None,
    }
}

/// A number that `humn` can call for the two operands of the root to be
/// the same, looked for by doubling the number that `humn` calls while
/// the left operand is the greater, and then halving the range between
/// the last two numbers tried. The search supposes that the left operand
/// falls as the number of `humn` rises; it gives `None` where it finds
/// nothing, where a number does not fit or is missing, or where `humn`
/// calls no number.
pub fn binary_search_for_humn_value(lookup: Vec<(String, Node)>) -> (found: Option<isize>)
    ensures
        found == searched(jobs_of(lookup@)),
        found matches Some(v) ==> balances(jobs_of(lookup@), v),
{
    let ghost jobs = jobs_of(lookup@);
    let mut table = lookup;
    let mut lower = match find(&table, &humn_name()) {
        Some(i) => match &table[i].1 {
            Node::Number(n) => *n,
            _ => {
                return None;
            },
        },
        None => {
            return None;
        },
    };
    let ghost mut now = lower;
    proof {
        lemma_first_place(jobs, "humn"@, 0);
        assert(put(jobs, "humn"@, Job::Number(now)) =~= jobs);
    }
    let mut upper = match lower.checked_mul(2) {
        Some(u) => u,
        None => {
            return None;
        },
    };
    if upper == 0 {
        upper = 1;
    }
    loop
        invariant_except_break
            upper != 0,
            searched(jobs) == searched_from(jobs, lower, upper),
        invariant
            jobs_of(table@) == put(jobs, "humn"@, Job::Number(now)),
            jobs == jobs_of(lookup@),
        ensures
            searched(jobs) == halved(jobs, lower, upper),
        decreases isize::MAX - apart(0, upper as int) + 1,
    {
        proof {
            lemma_put_twice(jobs, "humn"@, Job::Number(now), Job::Number(upper));
            now = upper;
        }
        put_monkey(&mut table, humn_name(), Node::Number(upper));
        match get_root_operands(&table) {
            Some((l, r)) => {
                if l > r {
                    lower = upper;
                    upper = match upper.checked_mul(2) {
                        Some(u) => u,
                        None => {
                            return None;
                        },
                    };
                } else {
                    break ;
                }
            },
            None => {
                return None;
            },
        }
    }
    loop
        invariant
            jobs_of(table@) == put(jobs, "humn"@, Job::Number(now)),
            jobs == jobs_of(lookup@),
            searched(jobs) == halved(jobs, lower, upper),
        decreases apart(lower as int, upper as int),
    {
        let test = if lower <= upper {
            (lower as i128 + (upper as i128 - lower as i128) / 2) as isize
        } else {
            (upper as i128 + (lower as i128 - upper as i128) / 2) as isize
        };
        assert(test == midpoint(lower, upper));
        proof {
            lemma_put_twice(jobs, "humn"@, Job::Number(now), Job::Number(test));
            now = test;
        }
        put_monkey(&mut table, humn_name(), Node::Number(test));
        match get_root_operands(&table) {
            Some((l, r)) => {
                if l == r {
                    return Some(test);
                }
                if l > r {
                    if test == lower {
                        return None;
                    }
                    lower = test;
                } else {
                    if test == upper {
                        return None;
                    }
                    upper = test;
                }
            },
            None => {
                return None;
            },
        }
    }
}

} // verus!

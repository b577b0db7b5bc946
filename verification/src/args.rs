//! Command-line flag lookup.
use vstd::prelude::*;
use crate::text::{chars_of, find_first, lemma_find_first_at};

verus! {

/// The arguments as character sequences.
pub open spec fn arg_views(args: Seq<String>) -> Seq<Seq<char>> {
    args.map_values(|a: String| a@)
}

/// The value that follows the first occurrence of `name` in `args`, if the
/// name occurs and is not the last argument.
pub open spec fn flag_spec(args: Seq<String>, name: Seq<char>) -> Option<String> {
    match find_first(arg_views(args), name) {
        Some(i) => if i + 1 < args.len() {
            Some(args[i + 1])
        } else {
            None
        },
        None => None,
    }
}

/// Whether two strings hold the same characters.
pub fn str_eq(a: &str, b: &str) -> (r: bool)
    ensures
        r == (a@ == b@),
{
    let x = chars_of(a);
    let y = chars_of(b);
    if x.len() != y.len() {
        return false;
    }
    let mut i: usize = 0;
    while i < x.len()
        invariant
            x@ == a@,
            y@ == b@,
            x@.len() == y@.len(),
            i <= x@.len(),
            forall|k: int| 0 <= k < i ==> x@[k] == y@[k],
        decreases x@.len() - i,
    {
        if x[i] != y[i] {
            return false;
        }
        i = i + 1;
    }
    assert(x@ =~= y@);
    true
}

/// Index of the first argument equal to `name`, or `args.len()`.
fn position(args: &[String], name: &str) -> (j: usize)
    ensures
        j <= args@.len(),
        j < args@.len() ==> find_first(arg_views(args@), name@) == Some(j as int),
        j == args@.len() ==> find_first(arg_views(args@), name@) is None,
{
    let mut j: usize = 0;
    while j < args.len() && !str_eq(args[j].as_str(), name)
        invariant
            j <= args@.len(),
            forall|k: int| 0 <= k < j ==> args@[k]@ != name@,
        decreases args@.len() - j,
    {
        j = j + 1;
    }
    proof {
        let v = arg_views(args@);
        assert forall|k: int| 0 <= k < j implies v[k] != name@ by {}
        lemma_find_first_at(v, name@, j as int);
    }
    j
}

/// The value given after flag `name`: the argument that follows its first
/// occurrence, if there is one.
pub fn flag(args: &[String], name: &str) -> (r: Option<String>)
    ensures
        r == flag_spec(args@, name@),
{
    let j = position(args, name);
    if j < args.len() && j + 1 < args.len() {
        Some(args[j + 1].clone())
    } else {
        None
    }
}

/// Whether `name` occurs among the arguments.
pub fn has(args: &[String], name: &str) -> (r: bool)
    ensures
        r == arg_views(args@).contains(name@),
{
    let j = position(args, name);
    proof {
        let v = arg_views(args@);
        crate::text::lemma_find_first(v, name@);
        if j < args@.len() {
            assert(v[j as int] == name@);
        } else {
            assert forall|k: int| 0 <= k < v.len() implies v[k] != name@ by {
                crate::text::lemma_find_first(v, name@);
            }
        }
    }
    j < args.len()
}

/// Client workers when `--threads` is `threads`: the value given; by
/// default one TCP flow (a single flow already fills the link) or one UDP
/// worker per online CPU (packet rate scales with cores).
pub fn client_threads(threads: Option<usize>, udp: bool, online_cpus: usize) -> (n: usize)
    ensures
        n == match threads {
            Some(t) => t,
            None => if udp {
                online_cpus
            } else {
                1
            },
        },
{
    match threads {
        Some(t) => t,
        None => if udp {
            online_cpus
        } else {
            1
        },
    }
}

/// The CPUs a server runs its workers on, one pinned worker per CPU: the
/// CPUs given with `--cpus` / `--numa` when there are any, otherwise every
/// online CPU.
pub fn server_cpus(cpus: &Vec<usize>, online: &Vec<usize>) -> (r: Vec<usize>)
    ensures
        r@ == if cpus@.len() > 0 {
            cpus@
        } else {
            online@
        },
{
    if cpus.len() > 0 {
        cpus.clone()
    } else {
        online.clone()
    }
}

} // verus!

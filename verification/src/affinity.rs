//! CPU sets: the CPUs this process may run on, Linux cpulist strings
//! ("0-3,8,10-11") and the effective CPU list for `--cpus` / `--numa`.
//!
//! The system calls and file reads that feed these functions are made by the
//! caller; here is what is computed from their results.
use vstd::prelude::*;
use crate::text::{
    decimal, is_digit, lemma_digit_not_special, law_parse_uint, is_ws, lemma_decimal, trim_end, trim_start,
    chars_of, find_first, find_in, lemma_find_first, lemma_find_first_at, parse_uint, parse_uint_in,
    trim, trim_bounds,
};

verus! {

/// The CPUs `a..=b`, in increasing order (none when `a > b`).
pub open spec fn cpu_range(a: int, b: int) -> Seq<usize> {
    Seq::new(if a <= b { (b - a + 1) as nat } else { 0 }, |k: int| (a + k) as usize)
}

/// The CPUs one comma-separated part of a cpulist names: the part is trimmed;
/// an empty part names none; a part with a `-` names the range between the
/// two trimmed numbers around its first `-`; another part names the one CPU
/// its number gives. A part that does not parse names none.
pub open spec fn part_cpus(p: Seq<char>) -> Seq<usize> {
    let t = trim(p);
    if t.len() == 0 {
        Seq::empty()
    } else {
        match find_first(t, '-') {
            Some(i) => match (
                parse_uint(trim(t.take(i)), usize::MAX as nat),
                parse_uint(trim(t.skip(i + 1)), usize::MAX as nat),
            ) {
                (Some(a), Some(b)) => cpu_range(a as int, b as int),
                _ => Seq::empty(),
            },
            None => match parse_uint(t, usize::MAX as nat) {
                Some(c) => seq![c as usize],
                None => Seq::empty(),
            },
        }
    }
}

/// The CPUs a cpulist names: those of each comma-separated part, in order.
pub open spec fn cpulist(s: Seq<char>) -> Seq<usize>
    decreases s.len(),
{
    match find_first(s, ',') {
        Some(i) => {
            if 0 <= i < s.len() {
                part_cpus(s.take(i)) + cpulist(s.skip(i + 1))
            } else {
                Seq::empty()
            }
        },
        None => part_cpus(s),
    }
}

/// The indices at which `mask` is set, in increasing order.
pub open spec fn set_cpus(mask: Seq<bool>) -> Seq<usize>
    decreases mask.len(),
{
    if mask.len() == 0 {
        Seq::empty()
    } else if mask.last() {
        set_cpus(mask.drop_last()).push((mask.len() - 1) as usize)
    } else {
        set_cpus(mask.drop_last())
    }
}

/// The number of set bits of `mask`.
pub open spec fn count_set(mask: Seq<bool>) -> nat
    decreases mask.len(),
{
    if mask.len() == 0 {
        0
    } else {
        count_set(mask.drop_last()) + if mask.last() {
            1nat
        } else {
            0nat
        }
    }
}

/// The CPUs of an affinity mask (`None` when the mask could not be read);
/// CPU 0 alone when it names none.
pub open spec fn online_cpus_spec(mask: Option<Seq<bool>>) -> Seq<usize> {
    let found = match mask {
        Some(m) => set_cpus(m),
        None => Seq::empty(),
    };
    if found.len() == 0 {
        seq![0usize]
    } else {
        found
    }
}

/// The CPUs a NUMA node's cpulist file names, given its contents (`None`
/// when it could not be read).
pub open spec fn numa_cpus_spec(contents: Option<Seq<char>>) -> Seq<usize> {
    match contents {
        Some(s) => cpulist(trim(s)),
        None => Seq::empty(),
    }
}

/// Appends `part_cpus(cs[lo..hi])` to `out`.
fn push_part(cs: &Vec<char>, lo: usize, hi: usize, out: &mut Vec<usize>)
    requires
        lo <= hi <= cs@.len(),
    ensures
        final(out)@ == old(out)@ + part_cpus(cs@.subrange(lo as int, hi as int)),
{
    let ghost p = cs@.subrange(lo as int, hi as int);
    let (a, b) = trim_bounds(cs, lo, hi);
    let ghost t = cs@.subrange(a as int, b as int);
    if a == b {
        assert(part_cpus(p) =~= Seq::<usize>::empty());
        assert(old(out)@ + Seq::<usize>::empty() =~= old(out)@);
        return ;
    }
    let dash = find_in(cs, a, b, '-');
    if dash < b {
        let ghost i = dash - a;
        assert(t.take(i) =~= cs@.subrange(a as int, dash as int));
        assert(t.skip(i + 1) =~= cs@.subrange(dash + 1, b as int));
        let (a1, b1) = trim_bounds(cs, a, dash);
        let (a2, b2) = trim_bounds(cs, dash + 1, b);
        let first = parse_uint_in(cs, a1, b1, usize::MAX as u64);
        let last = parse_uint_in(cs, a2, b2, usize::MAX as u64);
        match (first, last) {
            (Some(x), Some(y)) => {
                let x = x as usize;
                let y = y as usize;
                assert(part_cpus(p) == cpu_range(x as int, y as int));
                if x <= y {
                    let ghost start = out@;
                    let mut c = x;
                    loop
                        invariant_except_break
                            x <= c <= y,
                            out@ == start + cpu_range(x as int, c - 1),
                        ensures
                            out@ == start + cpu_range(x as int, y as int),
                        decreases y - c,
                    {
                        proof {
                            assert(cpu_range(x as int, c as int) =~= cpu_range(
                                x as int,
                                c - 1,
                            ).push(c));
                        }
                        out.push(c);
                        assert(out@ =~= start + cpu_range(x as int, c as int));
                        if c == y {
                            break ;
                        }
                        c = c + 1;
                    }
                } else {
                    assert(cpu_range(x as int, y as int) =~= Seq::<usize>::empty());
                    assert(old(out)@ + Seq::<usize>::empty() =~= old(out)@);
                }
            },
            _ => {
                assert(part_cpus(p) =~= Seq::<usize>::empty());
                assert(old(out)@ + Seq::<usize>::empty() =~= old(out)@);
            },
        }
    } else {
        match parse_uint_in(cs, a, b, usize::MAX as u64) {
            Some(c) => {
                out.push(c as usize);
                assert(out@ =~= old(out)@ + seq![c as usize]);
            },
            None => {
                assert(part_cpus(p) =~= Seq::<usize>::empty());
                assert(old(out)@ + Seq::<usize>::empty() =~= old(out)@);
            },
        }
    }
}

/// `cpulist(cs[lo..hi])`.
fn cpulist_in(cs: &Vec<char>, lo: usize, hi: usize) -> (out: Vec<usize>)
    requires
        lo <= hi <= cs@.len(),
    ensures
        out@ == cpulist(cs@.subrange(lo as int, hi as int)),
{
    let mut out: Vec<usize> = Vec::new();
    let mut start = lo;
    loop
        invariant
            lo <= start <= hi <= cs@.len(),
            cpulist(cs@.subrange(lo as int, hi as int)) == out@ + cpulist(
                cs@.subrange(start as int, hi as int),
            ),
        decreases hi - start,
    {
        let comma = find_in(cs, start, hi, ',');
        let ghost rest = cs@.subrange(start as int, hi as int);
        let ghost before = out@;
        push_part(cs, start, comma, &mut out);
        if comma == hi {
            assert(rest =~= cs@.subrange(start as int, comma as int));
            assert(cpulist(rest) == part_cpus(rest));
            assert(out@ + cpulist(cs@.subrange(hi as int, hi as int)) =~= out@) by {
                assert(cpulist(cs@.subrange(hi as int, hi as int)) =~= Seq::<usize>::empty()) by {
                    let e = cs@.subrange(hi as int, hi as int);
                    assert(find_first(e, ',') is None);
                    assert(trim(e) =~= e);
                }
            }
            return out;
        }
        let ghost i = comma - start;
        assert(rest.take(i) =~= cs@.subrange(start as int, comma as int));
        assert(rest.skip(i + 1) =~= cs@.subrange(comma + 1, hi as int));
        assert(cpulist(rest) == part_cpus(rest.take(i)) + cpulist(rest.skip(i + 1)));
        assert(before + cpulist(rest) =~= out@ + cpulist(rest.skip(i + 1)));
        start = comma + 1;
    }
}

/// Parse a Linux cpulist string ("0-3,8,10-11") into individual CPU ids.
/// Parts that are empty or do not parse are skipped.
pub fn parse_cpulist(s: &str) -> (out: Vec<usize>)
    ensures
        out@ == cpulist(s@),
{
    let cs = chars_of(s);
    assert(cs@.subrange(0, cs@.len() as int) =~= s@);
    cpulist_in(&cs, 0, cs.len())
}

/// CPUs this process is allowed to run on, given its affinity mask (bit `c`
/// set when CPU `c` is allowed; `None` when the mask could not be read).
/// Falls back to CPU 0 alone when the mask names no CPU.
pub fn online_cpus(mask: &Option<Vec<bool>>) -> (v: Vec<usize>)
    ensures
        v@ == online_cpus_spec(
            match mask {
                Some(m) => Some(m@),
                None => None,
            },
        ),
        v@.len() >= 1,
        mask matches Some(m) ==> (count_set(m@) > 0 ==> (forall|c: usize| #[trigger] v@.contains(c) <==> (
        c < m@.len() && m@[c as int]))),
        mask matches Some(m) ==> (count_set(m@) > 0 ==> v@.len() == count_set(m@)),
        forall|i: int, j: int| 0 <= i < j < v@.len() ==> v@[i] < v@[j],
        (mask is None || (mask matches Some(m) && count_set(m@) == 0)) ==> v@ == seq![0usize],
{
    let mut v: Vec<usize> = Vec::new();
    match mask {
        Some(m) => {
            let mask_len = m.len();
            assert(mask_len == m@.len());
            proof {
                law_set_cpus_exact(m@);
                law_set_cpus_count(m@);
            }
            let mut c: usize = 0;
            while c < m.len()
                invariant
                    c <= m@.len(),
                    v@ == set_cpus(m@.take(c as int)),
                decreases m@.len() - c,
            {
                assert(m@.take(c + 1).drop_last() =~= m@.take(c as int));
                if m[c] {
                    v.push(c);
                }
                c = c + 1;
            }
            assert(m@.take(c as int) =~= m@);
        },
        None => {},
    }
    if v.len() == 0 {
        v.push(0);
        assert(v@ =~= seq![0usize]);
    }
    v
}

/// Number of CPUs available to this process (>= 1), given its affinity mask.
pub fn online_cpu_count(mask: &Option<Vec<bool>>) -> (n: usize)
    ensures
        n == online_cpus_spec(
            match mask {
                Some(m) => Some(m@),
                None => None,
            },
        ).len(),
        n >= 1,
        mask matches Some(m) ==> (count_set(m@) > 0 ==> n == count_set(m@)),
        (mask is None || (mask matches Some(m) && count_set(m@) == 0)) ==> n == 1,
{
    let v = online_cpus(mask);
    if v.len() > 1 {
        v.len()
    } else {
        1
    }
}

/// CPUs belonging to a NUMA node, given the contents of its
/// `/sys/devices/system/node/node<N>/cpulist` file (`None` when unreadable).
pub fn numa_cpus(contents: &Option<String>) -> (out: Vec<usize>)
    ensures
        out@ == numa_cpus_spec(
            match contents {
                Some(s) => Some(s@),
                None => None,
            },
        ),
{
    match contents {
        Some(s) => {
            let cs = chars_of(s.as_str());
            let (a, b) = trim_bounds(&cs, 0, cs.len());
            assert(cs@.subrange(0, cs@.len() as int) =~= s@);
            cpulist_in(&cs, a, b)
        },
        None => Vec::new(),
    }
}

/// Resolve the effective CPU list for `--cpus` / `--numa`: the `--cpus` list
/// when given, else the CPUs of the `--numa` node (whose cpulist file reads
/// `node_cpulist`), else none.
pub fn resolve_cpus(cpus: &Option<String>, numa: &Option<usize>, node_cpulist: &Option<String>) -> (out: Vec<usize>)
    ensures
        out@ == match cpus {
            Some(list) => cpulist(list@),
            None => match numa {
                Some(_) => numa_cpus_spec(
                    match node_cpulist {
                        Some(s) => Some(s@),
                        None => None,
                    },
                ),
                None => Seq::empty(),
            },
        },
{
    match cpus {
        Some(list) => parse_cpulist(list.as_str()),
        None => match numa {
            Some(_) => numa_cpus(node_cpulist),
            None => Vec::new(),
        },
    }
}

/// A cpulist joined from two by a comma names the CPUs of the first, then
/// those of the second.
pub proof fn law_cpulist_concat(a: Seq<char>, b: Seq<char>)
    ensures
        cpulist(a + seq![','] + b) == cpulist(a) + cpulist(b),
    decreases a.len(),
{
    let full = a + seq![','] + b;
    lemma_find_first(a, ',');
    match find_first(a, ',') {
        Some(i) => {
            assert forall|k: int| 0 <= k < i implies full[k] != ',' by {
                assert(full[k] == a[k]);
            }
            assert(full[i] == a[i]);
            lemma_find_first_at(full, ',', i);
            assert(full.take(i) =~= a.take(i));
            assert(full.skip(i + 1) =~= a.skip(i + 1) + seq![','] + b);
            law_cpulist_concat(a.skip(i + 1), b);
            assert(cpulist(full) =~= part_cpus(a.take(i)) + (cpulist(a.skip(i + 1)) + cpulist(b)));
        },
        None => {
            assert forall|k: int| 0 <= k < a.len() implies full[k] != ',' by {
                assert(full[k] == a[k]);
            }
            assert(full[a.len() as int] == ',');
            lemma_find_first_at(full, ',', a.len() as int);
            assert(full.take(a.len() as int) =~= a);
            assert(full.skip(a.len() as int + 1) =~= b);
        },
    }
}

/// CPU ids rendered in decimal and joined by commas, as a cpulist writes
/// them.
pub open spec fn join_cpus(v: Seq<usize>) -> Seq<char>
    decreases v.len(),
{
    if v.len() == 0 {
        Seq::empty()
    } else if v.len() == 1 {
        decimal(v[0] as nat)
    } else {
        decimal(v[0] as nat) + seq![','] + join_cpus(v.drop_first())
    }
}

/// A single decimal id names itself.
proof fn lemma_cpulist_decimal(c: usize)
    ensures
        cpulist(decimal(c as nat)) == seq![c],
{
    let s = decimal(c as nat);
    lemma_decimal(c as nat);
    assert(!is_ws(s[0]) && s[0] != '+') by {
        assert(is_digit(s[0]));
    }
    assert(!is_ws(s.last())) by {
        assert(is_digit(s[s.len() - 1]));
    }
    assert(trim_start(s) == s);
    assert(trim_end(s) == s);
    assert(trim(s) == s);
    assert forall|k: int| 0 <= k < s.len() implies s[k] != ',' && s[k] != '-' by {
        assert(is_digit(s[k]));
    }
    lemma_find_first_at(s, ',', s.len() as int);
    lemma_find_first_at(s, '-', s.len() as int);
    assert(parse_uint(s, usize::MAX as nat) == Some(c as nat));
}

/// A range `a-b` names the CPUs from `a` to `b` inclusive, in increasing
/// order, and none when `a > b`.
pub proof fn law_cpulist_range(a: usize, b: usize)
    ensures
        ({
            let r = cpulist(decimal(a as nat) + seq!['-'] + decimal(b as nat));
            &&& r.len() == (if a <= b {
                b - a + 1
            } else {
                0
            })
            &&& forall|k: int| 0 <= k < r.len() ==> #[trigger] r[k] == a + k
        }),
{
    let da = decimal(a as nat);
    let db = decimal(b as nat);
    let t = da + seq!['-'] + db;
    lemma_decimal(a as nat);
    lemma_decimal(b as nat);
    law_parse_uint(a as nat, usize::MAX as nat, Seq::empty());
    law_parse_uint(b as nat, usize::MAX as nat, Seq::empty());
    assert forall|k: int| 0 <= k < t.len() && k != da.len() implies is_digit(t[k]) && t[k] != ','
        && t[k] != '-' by {
        if k < da.len() {
            assert(t[k] == da[k]);
            assert(is_digit(da[k]));
        } else {
            assert(t[k] == db[k - da.len() - 1]);
            assert(is_digit(db[k - da.len() - 1]));
        }
        lemma_digit_not_special(t[k]);
    }
    assert(t[da.len() as int] == '-');
    lemma_find_first_at(t, ',', t.len() as int);
    lemma_find_first_at(t, '-', da.len() as int);
    lemma_digit_not_special(t[0]);
    lemma_digit_not_special(t[t.len() - 1]);
    assert(trim_start(t) == t);
    assert(trim_end(t) == t);
    assert(t.take(da.len() as int) =~= da);
    assert(t.skip(da.len() as int + 1) =~= db);
    lemma_digits_trim(da);
    lemma_digits_trim(db);
}

/// A non-empty run of digits is its own trim.
proof fn lemma_digits_trim(s: Seq<char>)
    requires
        s.len() >= 1,
        forall|i: int| 0 <= i < s.len() ==> #[trigger] is_digit(s[i]),
    ensures
        trim(s) == s,
{
    lemma_digit_not_special(s[0]);
    lemma_digit_not_special(s[s.len() - 1]);
    assert(trim_start(s) == s);
    assert(trim_end(s) == s);
}

/// Rendering a list of CPU ids as a cpulist and parsing it back gives the
/// list itself: order and repeats are kept, nothing is sorted or merged.
pub proof fn law_cpulist_decimal_round_trip(v: Seq<usize>)
    ensures
        cpulist(join_cpus(v)) == v,
    decreases v.len(),
{
    if v.len() == 0 {
        let e = Seq::<char>::empty();
        assert(find_first(e, ',') is None);
        assert(trim(e) =~= e);
        assert(cpulist(e) =~= Seq::<usize>::empty());
    } else if v.len() == 1 {
        lemma_cpulist_decimal(v[0]);
        assert(seq![v[0]] =~= v);
    } else {
        lemma_cpulist_decimal(v[0]);
        law_cpulist_decimal_round_trip(v.drop_first());
        law_cpulist_concat(decimal(v[0] as nat), join_cpus(v.drop_first()));
        assert(seq![v[0]] + v.drop_first() =~= v);
    }
}

/// As many CPUs are read from a mask as it has bits set.
pub proof fn law_set_cpus_count(mask: Seq<bool>)
    ensures
        set_cpus(mask).len() == count_set(mask),
    decreases mask.len(),
{
    if mask.len() > 0 {
        law_set_cpus_count(mask.drop_last());
    }
}

/// The CPUs of a mask with some bit set are exactly its set bits, in
/// increasing order; a mask with none, or none at all, gives CPU 0 alone.
pub proof fn law_online_cpus_exact(mask: Option<Seq<bool>>)
    requires
        mask matches Some(m) ==> m.len() <= usize::MAX,
    ensures
        mask matches Some(m) ==> (count_set(m) > 0 ==> (forall|c: usize|
            #[trigger] online_cpus_spec(mask).contains(c) <==> (c < m.len() && m[c as int]))),
        mask matches Some(m) ==> (count_set(m) > 0 ==> online_cpus_spec(mask).len() == count_set(m)),
        forall|i: int, j: int|
            0 <= i < j < online_cpus_spec(mask).len() ==> online_cpus_spec(mask)[i]
                < online_cpus_spec(mask)[j],
        (mask is None || (mask matches Some(m) && count_set(m) == 0)) ==> online_cpus_spec(mask)
            == seq![0usize],
{
    if let Some(m) = mask {
        law_set_cpus_exact(m);
        law_set_cpus_count(m);
    }
}

/// The CPUs read from an affinity mask are exactly those whose bit is set,
/// each once, in increasing order.
pub proof fn law_set_cpus_exact(mask: Seq<bool>)
    requires
        mask.len() <= usize::MAX,
    ensures
        forall|c: usize| #[trigger] set_cpus(mask).contains(c) <==> (c < mask.len() && mask[c as int]),
        forall|i: int, j: int|
            0 <= i < j < set_cpus(mask).len() ==> set_cpus(mask)[i] < set_cpus(mask)[j],
        forall|i: int| 0 <= i < set_cpus(mask).len() ==> set_cpus(mask)[i] < mask.len(),
    decreases mask.len(),
{
    if mask.len() > 0 {
        let init = mask.drop_last();
        law_set_cpus_exact(init);
        let prev = set_cpus(init);
        let cur = set_cpus(mask);
        let top = (mask.len() - 1) as usize;
        if mask.last() {
            assert(cur == prev.push(top));
        } else {
            assert(cur == prev);
        }
        assert forall|c: usize| #[trigger] cur.contains(c) <==> (c < mask.len() && mask[c as int]) by {
            if c < init.len() {
                assert(init[c as int] == mask[c as int]);
            }
            if cur.contains(c) {
                let k = choose|k: int| 0 <= k < cur.len() && cur[k] == c;
                if k < prev.len() {
                    assert(prev[k] == c);
                    assert(prev.contains(c));
                }
            }
            if c < mask.len() && mask[c as int] {
                if c == top {
                    assert(mask.last());
                    assert(cur[prev.len() as int] == c);
                } else {
                    assert(prev.contains(c));
                    let k = choose|k: int| 0 <= k < prev.len() && prev[k] == c;
                    assert(cur[k] == c);
                }
            }
        }
        assert forall|i: int, j: int| 0 <= i < j < cur.len() implies cur[i] < cur[j] by {
            if j < prev.len() {
                assert(cur[i] == prev[i] && cur[j] == prev[j]);
            } else {
                assert(cur[i] == prev[i]);
            }
        }
    }
}

} // verus!

//! The anti-OOM safeguard: available memory from `/proc/meminfo` text, the
//! memory that a run plans to allocate for packet buffers, and the decision to
//! refuse a run whose buffers exceed a quarter of the available memory.
use vstd::prelude::*;
use crate::net::BATCH;
use crate::text::{
    decimal, is_digit, is_ws, lemma_decimal, lemma_digit_not_special, lemma_find_first,
    law_parse_uint,
    chars_of, find_first, find_in, has_prefix, parse_uint, parse_uint_in, skip_ws,
    take_until_ws, token_end, trim_start,
};

verus! {

/// The limit applied when the available memory is unknown: 1 GiB.
pub const DEFAULT_CAP: u64 = 1073741824;

/// One mebibyte.
pub const MIB: u64 = 1048576;

/// The key of the meminfo line that gives the available memory.
pub open spec fn mem_available_key() -> Seq<char> {
    seq!['M', 'e', 'm', 'A', 'v', 'a', 'i', 'l', 'a', 'b', 'l', 'e', ':']
}

/// The value of the first `MemAvailable:` line of a meminfo text, in kB: the
/// first whitespace-separated word after the key, read as a `u64`. Lines are
/// separated by `\n`; a later line is looked at only when no earlier line
/// starts with the key.
pub open spec fn meminfo_kb(s: Seq<char>) -> Option<nat>
    decreases s.len(),
{
    let line = match find_first(s, '\n') {
        Some(i) => s.take(i),
        None => s,
    };
    if has_prefix(line, mem_available_key()) {
        parse_uint(
            take_until_ws(trim_start(line.skip(mem_available_key().len() as int))),
            u64::MAX as nat,
        )
    } else {
        match find_first(s, '\n') {
            Some(i) => if 0 <= i < s.len() {
                meminfo_kb(s.skip(i + 1))
            } else {
                None
            },
            None => None,
        }
    }
}

/// The memory that the guard allows: a quarter of the available memory, or
/// `DEFAULT_CAP` when that is unknown.
pub open spec fn oom_cap(mem_available: Option<u64>) -> u64 {
    match mem_available {
        Some(m) => m / 4,
        None => DEFAULT_CAP,
    }
}

/// Why a run was refused: what it planned and what it was allowed, both in
/// whole MiB.
#[derive(Debug, Clone, Copy, PartialEq, Eq)]
pub struct OomRefusal {
    pub planned_mib: u64,
    pub cap_mib: u64,
}

/// Whether `cs[lo..hi]` starts with `MemAvailable:`.
fn starts_with_key(cs: &Vec<char>, lo: usize, hi: usize) -> (r: bool)
    requires
        lo <= hi <= cs@.len(),
    ensures
        r == has_prefix(cs@.subrange(lo as int, hi as int), mem_available_key()),
{
    let key: Vec<char> = vec!['M', 'e', 'm', 'A', 'v', 'a', 'i', 'l', 'a', 'b', 'l', 'e', ':'];
    assert(key@ =~= mem_available_key());
    if hi - lo < key.len() {
        return false;
    }
    let ghost line = cs@.subrange(lo as int, hi as int);
    let mut k: usize = 0;
    while k < key.len()
        invariant
            key@ == mem_available_key(),
            lo + key@.len() <= hi <= cs@.len(),
            line == cs@.subrange(lo as int, hi as int),
            k <= key@.len(),
            forall|i: int| 0 <= i < k ==> cs@[lo + i] == key@[i],
        decreases key@.len() - k,
    {
        if cs[lo + k] != key[k] {
            assert(line.take(key@.len() as int)[k as int] != key@[k as int]);
            return false;
        }
        k = k + 1;
    }
    assert(line.take(key@.len() as int) =~= key@);
    true
}

/// The available memory in kB that a meminfo text gives (`MemAvailable:`).
pub fn mem_available_kb(meminfo: &str) -> (r: Option<u64>)
    ensures
        match meminfo_kb(meminfo@) {
            Some(kb) => r == Some(kb as u64),
            None => r is None,
        },
{
    let cs = chars_of(meminfo);
    let n = cs.len();
    let mut start: usize = 0;
    assert(cs@.subrange(0, n as int) =~= meminfo@);
    loop
        invariant
            start <= n == cs@.len(),
            meminfo_kb(meminfo@) == meminfo_kb(cs@.subrange(start as int, n as int)),
        decreases n - start,
    {
        let ghost s = cs@.subrange(start as int, n as int);
        let end = find_in(&cs, start, n, '\n');
        let ghost line = cs@.subrange(start as int, end as int);
        assert(line == (match find_first(s, '\n') {
            Some(i) => s.take(i),
            None => s,
        })) by {
            if end < n {
                assert(s.take(end - start) =~= line);
            } else {
                assert(s =~= line);
            }
        }
        if starts_with_key(&cs, start, end) {
            let a = skip_ws(&cs, start + 13, end);
            let b = token_end(&cs, a, end);
            assert(line.skip(13) =~= cs@.subrange(start + 13, end as int));
            assert(cs@.subrange(a as int, end as int) == trim_start(line.skip(13)));
            return parse_uint_in(&cs, a, b, u64::MAX);
        }
        if end == n {
            return None;
        }
        assert(s.skip(end - start + 1) =~= cs@.subrange(end + 1, n as int));
        start = end + 1;
    }
}

/// Available memory in bytes, from the `MemAvailable:` line of a meminfo
/// text, if there is one and it reads as a number.
pub fn mem_available_bytes(meminfo: &str) -> (r: Option<u64>)
    requires
        meminfo_kb(meminfo@) matches Some(kb) ==> kb * 1024 <= u64::MAX,
    ensures
        match meminfo_kb(meminfo@) {
            Some(kb) => r == Some((kb * 1024) as u64),
            None => r is None,
        },
{
    match mem_available_kb(meminfo) {
        Some(kb) => Some(kb * 1024),
        None => None,
    }
}

/// The anti-OOM decision: a run that plans `planned_bytes` of buffers is
/// refused when they exceed a quarter of the available memory (or 1 GiB when
/// that is unknown).
pub fn oom_guard(planned_bytes: u64, mem_available: Option<u64>) -> (r: Result<(), OomRefusal>)
    ensures
        planned_bytes <= oom_cap(mem_available) ==> r is Ok,
        planned_bytes > oom_cap(mem_available) ==> r == Err::<(), OomRefusal>(
            OomRefusal {
                planned_mib: planned_bytes / MIB,
                cap_mib: oom_cap(mem_available) / MIB,
            },
        ),
        mem_available matches Some(m) ==> (r is Ok <==> planned_bytes <= m / 4),
        mem_available matches Some(m) ==> (planned_bytes > m / 4 ==> r == Err::<(), OomRefusal>(
            OomRefusal { planned_mib: planned_bytes / MIB, cap_mib: m / 4 / MIB },
        )),
        mem_available is None ==> (r is Ok <==> planned_bytes <= 1073741824),
{
    let cap = match mem_available {
        Some(m) => m / 4,
        None => DEFAULT_CAP,
    };
    if planned_bytes > cap {
        Err(OomRefusal { planned_mib: planned_bytes / MIB, cap_mib: cap / MIB })
    } else {
        Ok(())
    }
}

/// A `MemAvailable:` line gives the number after the key, whatever
/// whitespace stands between and whatever follows a blank after it.
pub proof fn law_meminfo_line(n: u64, rest: Seq<char>)
    requires
        forall|i: int| 0 <= i < rest.len() ==> #[trigger] rest[i] != '\n',
    ensures
        meminfo_kb(mem_available_key() + seq![' '] + decimal(n as nat) + seq![' '] + rest) == Some(
            n as nat,
        ),
{
    let d = decimal(n as nat);
    let k = mem_available_key();
    let s = k + seq![' '] + d + seq![' '] + rest;
    lemma_decimal(n as nat);
    assert forall|i: int| 0 <= i < s.len() implies s[i] != '\n' by {
        if k.len() + 1 <= i < k.len() + 1 + d.len() {
            assert(s[i] == d[i - k.len() - 1]);
            lemma_digit_not_special(d[i - k.len() - 1]);
        } else if i >= k.len() + 2 + d.len() {
            assert(s[i] == rest[i - k.len() - 2 - d.len()]);
        }
    }
    lemma_find_first(s, '\n');
    assert(s.take(k.len() as int) =~= k);
    let after = s.skip(k.len() as int);
    assert(after =~= seq![' '] + d + seq![' '] + rest);
    assert(after.drop_first() =~= d + seq![' '] + rest);
    lemma_digit_not_special(d[0]);
    assert((d + seq![' '] + rest)[0] == d[0]);
    assert(is_ws(after[0]));
    assert(trim_start(d + seq![' '] + rest) == d + seq![' '] + rest);
    assert(trim_start(after) == trim_start(after.drop_first()));
    assert(trim_start(after) == d + seq![' '] + rest);
    lemma_take_until_ws_prefix(d, seq![' '] + rest);
    assert(d + seq![' '] + rest =~= d + (seq![' '] + rest));
    law_parse_uint(n as nat, u64::MAX as nat, Seq::empty());
}

/// The leading word of digits followed by a blank is the digits.
proof fn lemma_take_until_ws_prefix(d: Seq<char>, tail: Seq<char>)
    requires
        forall|i: int| 0 <= i < d.len() ==> #[trigger] is_digit(d[i]),
        tail.len() > 0 && is_ws(tail[0]),
    ensures
        take_until_ws(d + tail) == d,
    decreases d.len(),
{
    if d.len() == 0 {
        assert(d + tail =~= tail);
    } else {
        lemma_digit_not_special(d[0]);
        let d2 = d.drop_first();
        assert((d + tail).drop_first() =~= d2 + tail);
        lemma_take_until_ws_prefix(d2, tail);
        assert(seq![d[0]] + d2 =~= d);
    }
}

/// The guard allows exactly a quarter of the available memory when that is
/// known (with no floor or ceiling: four times the cap is the available
/// memory rounded down to a multiple of four), and 1 GiB when it is not.
pub proof fn law_oom_cap_quarter(m: u64)
    ensures
        4 * oom_cap(Some(m)) <= m < 4 * oom_cap(Some(m)) + 4,
        oom_cap(Some(m)) == m / 4,
        oom_cap(None) == 1073741824,
{
}

/// Receive buffers a UDP server allocates per worker: `BATCH` buffers of
/// `max(len, 2048)` bytes; `None` when that does not fit in a `u64`.
pub fn server_buffer_bytes(len: usize) -> (r: Option<u64>)
    ensures
        ({
            let per = if len >= 2048 { len as int } else { 2048 };
            match r {
                Some(b) => b == BATCH * per,
                None => BATCH * per > u64::MAX,
            }
        }),
{
    let per: u64 = if len >= 2048 { len as u64 } else { 2048 };
    (BATCH as u64).checked_mul(per)
}

/// Buffers a client allocates: `threads * BATCH * len` bytes for UDP,
/// `threads * 256 KiB` for TCP; `None` when a product does not fit in a
/// `u64`.
pub fn client_buffer_bytes(udp: bool, threads: usize, len: usize) -> (r: Option<u64>)
    ensures
        udp ==> match r {
            Some(b) => b == threads * BATCH * len,
            None => threads * BATCH > u64::MAX || threads * BATCH * len > u64::MAX,
        },
        !udp ==> match r {
            Some(b) => b == threads * 256 * 1024,
            None => threads * 256 > u64::MAX || threads * 256 * 1024 > u64::MAX,
        },
{
    if udp {
        match (threads as u64).checked_mul(BATCH as u64) {
            Some(p) => p.checked_mul(len as u64),
            None => None,
        }
    } else {
        match (threads as u64).checked_mul(256) {
            Some(p) => p.checked_mul(1024),
            None => None,
        }
    }
}

} // verus!

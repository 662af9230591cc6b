//! JIT symbol resolution: parses `/tmp/perf-<pid>.map`, the line-based
//! address-range-to-symbol format that JIT engines write when running with
//! basic profiling enabled (Node's `--perf-basic-prof`, perf-map-agent for
//! the JVM, ...), so that JIT-compiled code, which lives in anonymous
//! mappings that ELF symbol tables do not describe, can still be labelled.

use vstd::prelude::*;
use std::collections::VecDeque;
use vstd::multiset::Multiset;
use crate::text::{
    ended_lines, find_white_space, open_line, parse_hex, parse_hex_u64, skip_white_space,
    string_of, strip_cr, text_lines, trim_start, white_space_index, lemma_ended_lines_prefix,
    law_white_space_index, law_trim_start,
    is_white_space, lower_hex, lemma_lower_hex, law_lower_hex_parses_back,
    lemma_white_space_index_concat, law_white_space_chars,
};

verus! {

/// One symbol of a perf map, as the specifications see it:
/// `(start, end, name)`, covering the addresses `start <= a < end`.
pub type SymbolRange = (u64, u64, Seq<char>);

/// The fields of one perf-map line `HEX_START HEX_SIZE symbol_name`, as
/// `(start, size, name)`. The line is split at its first two white-space
/// characters (`splitn(3, char::is_whitespace)`); the name is the rest of
/// the line with its leading white space removed, so it may itself hold
/// spaces. A line with fewer than three fields, a field that is not a
/// hexadecimal `u64`, or an empty name gives `None`.
pub open spec fn map_line_fields(l: Seq<char>) -> Option<SymbolRange> {
    let i = white_space_index(l) as int;
    let rest = l.skip(i + 1);
    let j = white_space_index(rest) as int;
    let name = trim_start(rest.skip(j + 1));
    if i < l.len() && j < rest.len() {
        match (parse_hex_u64(l.take(i)), parse_hex_u64(rest.take(j))) {
            (Some(start), Some(size)) => if name.len() > 0 {
                Some((start, size, name))
            } else {
                None
            },
            _ => None,
        }
    } else {
        None
    }
}

/// Parses the fields of one perf-map line; see `map_line_fields`.
fn parse_map_line(line: &[char]) -> (r: Option<(u64, u64, String)>)
    ensures
        match r {
            Some(e) => map_line_fields(line@) == Some(e@),
            None => map_line_fields(line@) is None,
        },
{
    let ghost l = line@;
    let n = line.len();
    let i = find_white_space(line, 0, n);
    assert(l.subrange(0, n as int) =~= l);
    if i == n {
        return None;
    }
    let j = find_white_space(line, i + 1, n);
    let ghost rest = l.skip(i + 1);
    assert(rest =~= l.subrange(i + 1, n as int));
    if j == n {
        return None;
    }
    assert(l.take(i as int) =~= l.subrange(0, i as int));
    assert(rest.take(j - (i + 1)) =~= l.subrange(i + 1, j as int));
    assert(rest.skip(j - (i + 1) + 1) =~= l.subrange(j + 1, n as int));
    let start = match parse_hex(line, 0, i) {
        Some(v) => v,
        None => return None,
    };
    let size = match parse_hex(line, i + 1, j) {
        Some(v) => v,
        None => return None,
    };
    let k = skip_white_space(line, j + 1, n);
    if k == n {
        return None;
    }
    let name = string_of(line, k, n);
    Some((start, size, name))
}

/// Whether the end of the range that line `l` describes fits in 64 bits.
/// Lines that are not symbol lines have nothing to fit.
pub open spec fn line_fits(l: Seq<char>) -> bool {
    match map_line_fields(l) {
        Some((start, size, _)) => start + size <= u64::MAX,
        None => true,
    }
}

/// The symbol that line `l` describes: `[start, start + size)` and its name.
pub open spec fn line_symbol(l: Seq<char>) -> Option<SymbolRange> {
    match map_line_fields(l) {
        Some((start, size, name)) => Some((start, (start + size) as u64, name)),
        None => None,
    }
}

/// The symbols of the lines `ls` that describe one, in the order of the lines;
/// the other lines are skipped.
pub open spec fn line_symbols(ls: Seq<Seq<char>>) -> Seq<SymbolRange>
    decreases ls.len(),
{
    if ls.len() == 0 {
        seq![]
    } else {
        match line_symbol(ls.last()) {
            Some(e) => line_symbols(ls.drop_last()).push(e),
            None => line_symbols(ls.drop_last()),
        }
    }
}

/// The symbols of a perf-map text, in the order of its lines.
pub open spec fn map_symbols(text: Seq<char>) -> Seq<SymbolRange> {
    line_symbols(text_lines(text))
}

/// Every symbol line of the text describes a range whose end fits in 64 bits.
pub open spec fn map_fits(text: Seq<char>) -> bool {
    forall|k: int| 0 <= k < text_lines(text).len() ==> #[trigger] line_fits(text_lines(text)[k])
}

/// How many symbols of `t` start at or below `key`.
pub open spec fn count_starting_by(t: Seq<SymbolRange>, key: u64) -> nat
    decreases t.len(),
{
    if t.len() == 0 {
        0
    } else {
        count_starting_by(t.drop_last(), key) + if t.last().0 <= key {
            1nat
        } else {
            0nat
        }
    }
}

pub open spec fn sorted_by_start(t: Seq<SymbolRange>) -> bool {
    forall|i: int, j: int| 0 <= i <= j < t.len() ==> t[i].0 <= t[j].0
}

/// `t` with `e` placed after every symbol that starts at or below `e`'s start.
pub open spec fn insert_by_start(t: Seq<SymbolRange>, e: SymbolRange) -> Seq<SymbolRange> {
    t.insert(count_starting_by(t, e.0) as int, e)
}

/// `s` sorted by start, stably: symbols with the same start keep the order
/// they have in `s` (what `sort_by_key` on the start gives).
pub open spec fn sort_by_start(s: Seq<SymbolRange>) -> Seq<SymbolRange>
    decreases s.len(),
{
    if s.len() == 0 {
        s
    } else {
        insert_by_start(sort_by_start(s.drop_last()), s.last())
    }
}

/// Whether the range of symbol `e` holds the address `ip`.
pub open spec fn holds(e: SymbolRange, ip: u64) -> bool {
    e.0 <= ip && ip < e.1
}

/// The index of the last symbol of `t` whose range holds `ip`, or -1 where
/// none does. In a table sorted stably by start this is, of the symbols that
/// hold `ip`, the one with the greatest start, and of several with that
/// start the one from the latest line.
pub open spec fn last_holder(t: Seq<SymbolRange>, ip: u64) -> int
    decreases t.len(),
{
    if t.len() == 0 {
        -1
    } else if holds(t.last(), ip) {
        t.len() - 1
    } else {
        last_holder(t.drop_last(), ip)
    }
}

/// What resolving `ip` in the table `t` gives: the symbol at `last_holder`,
/// as `(name, ip - start)`, or `None` where no range holds `ip`.
pub open spec fn resolve_in(t: Seq<SymbolRange>, ip: u64) -> Option<(Seq<char>, u64)> {
    let k = last_holder(t, ip);
    if k >= 0 {
        Some((t[k].2, (ip - t[k].0) as u64))
    } else {
        None
    }
}

/// `last_holder` is the one index that holds `ip` with no holder after it.
pub proof fn lemma_last_holder(t: Seq<SymbolRange>, ip: u64)
    ensures
        -1 <= last_holder(t, ip) < t.len(),
        last_holder(t, ip) >= 0 ==> holds(t[last_holder(t, ip)], ip),
        forall|j: int| last_holder(t, ip) < j < t.len() ==> !#[trigger] holds(t[j], ip),
    decreases t.len(),
{
    if t.len() > 0 {
        let p = t.drop_last();
        lemma_last_holder(p, ip);
        assert forall|j: int| 0 <= j < p.len() implies #[trigger] p[j] == t[j] by {}
        if !holds(t.last(), ip) {
            assert forall|j: int| last_holder(t, ip) < j < t.len() implies !#[trigger] holds(
                t[j],
                ip,
            ) by {
                if j < p.len() {
                    assert(p[j] == t[j]);
                }
            }
        }
    }
}

/// An index that holds `ip`, with no holder after it, is `last_holder`; and
/// where nothing holds `ip`, `last_holder` is -1.
pub proof fn lemma_last_holder_at(t: Seq<SymbolRange>, ip: u64, k: int)
    requires
        -1 <= k < t.len(),
        k >= 0 ==> holds(t[k], ip),
        forall|j: int| k < j < t.len() ==> !#[trigger] holds(t[j], ip),
    ensures
        last_holder(t, ip) == k,
{
    lemma_last_holder(t, ip);
    let m = last_holder(t, ip);
    if m < k {
        assert(holds(t[k], ip));
    } else if m > k {
        assert(holds(t[m], ip));
    }
}

/// The greatest end among the first `n` symbols of `t` (0 where `n` is 0).
pub open spec fn max_end(t: Seq<SymbolRange>, n: int) -> u64
    decreases n,
{
    if n <= 0 {
        0
    } else if max_end(t, n - 1) < t[n - 1].1 {
        t[n - 1].1
    } else {
        max_end(t, n - 1)
    }
}

proof fn lemma_max_end(t: Seq<SymbolRange>, n: int)
    requires
        0 <= n <= t.len(),
    ensures
        forall|j: int| 0 <= j < n ==> #[trigger] t[j].1 <= max_end(t, n),
    decreases n,
{
    if n > 0 {
        lemma_max_end(t, n - 1);
    }
}

pub proof fn lemma_count_bound(t: Seq<SymbolRange>, key: u64)
    ensures
        count_starting_by(t, key) <= t.len(),
    decreases t.len(),
{
    if t.len() > 0 {
        lemma_count_bound(t.drop_last(), key);
    }
}

/// In a sorted table the symbols that start at or below `key` come first.
pub proof fn lemma_count_sorted(t: Seq<SymbolRange>, key: u64)
    requires
        sorted_by_start(t),
    ensures
        forall|k: int|
            0 <= k < t.len() ==> (#[trigger] t[k].0 <= key <==> k < count_starting_by(t, key)),
    decreases t.len(),
{
    if t.len() > 0 {
        let p = t.drop_last();
        assert(sorted_by_start(p));
        lemma_count_sorted(p, key);
        lemma_count_bound(p, key);
        assert forall|k: int| 0 <= k < t.len() implies (#[trigger] t[k].0 <= key <==> k
            < count_starting_by(t, key)) by {
            if k < p.len() {
                assert(t[k] == p[k]);
                if t.last().0 <= key {
                    assert(t[k].0 <= t.last().0);
                }
            }
        }
    }
}

/// The count of a sorted table is the one split point between the symbols
/// at or below `key` and those above it.
pub proof fn lemma_count_split(t: Seq<SymbolRange>, key: u64, c: int)
    requires
        sorted_by_start(t),
        0 <= c <= t.len(),
        forall|k: int| 0 <= k < c ==> #[trigger] t[k].0 <= key,
        forall|k: int| c <= k < t.len() ==> #[trigger] t[k].0 > key,
    ensures
        count_starting_by(t, key) == c,
{
    lemma_count_sorted(t, key);
    lemma_count_bound(t, key);
    let n = count_starting_by(t, key) as int;
    if n < c {
        assert(t[n].0 <= key);
    } else if n > c {
        assert(t[c].0 > key);
    }
}

pub proof fn lemma_insert_sorted(t: Seq<SymbolRange>, e: SymbolRange)
    requires
        sorted_by_start(t),
    ensures
        sorted_by_start(insert_by_start(t, e)),
        insert_by_start(t, e).len() == t.len() + 1,
{
    lemma_count_sorted(t, e.0);
    lemma_count_bound(t, e.0);
    let q = count_starting_by(t, e.0) as int;
    let u = insert_by_start(t, e);
    assert forall|i: int, j: int| 0 <= i <= j < u.len() implies u[i].0 <= u[j].0 by {
        if i < q && j < q {
            assert(u[i] == t[i] && u[j] == t[j]);
        } else if i < q && j == q {
            assert(u[i] == t[i]);
        } else if i < q {
            assert(u[i] == t[i] && u[j] == t[j - 1]);
        } else if i == q && j > q {
            assert(u[j] == t[j - 1]);
        } else if i > q {
            assert(u[i] == t[i - 1] && u[j] == t[j - 1]);
        }
    }
}

pub proof fn lemma_sort_sorted(s: Seq<SymbolRange>)
    ensures
        sorted_by_start(sort_by_start(s)),
        sort_by_start(s).len() == s.len(),
    decreases s.len(),
{
    if s.len() > 0 {
        lemma_sort_sorted(s.drop_last());
        lemma_insert_sorted(sort_by_start(s.drop_last()), s.last());
    }
}

/// The symbols of `s` that start at `k`, in their order in `s`.
pub open spec fn starting_at(s: Seq<SymbolRange>, k: u64) -> Seq<SymbolRange>
    decreases s.len(),
{
    if s.len() == 0 {
        seq![]
    } else if s.last().0 == k {
        starting_at(s.drop_last(), k).push(s.last())
    } else {
        starting_at(s.drop_last(), k)
    }
}

proof fn lemma_starting_at_add(a: Seq<SymbolRange>, b: Seq<SymbolRange>, k: u64)
    ensures
        starting_at(a + b, k) == starting_at(a, k) + starting_at(b, k),
    decreases b.len(),
{
    if b.len() == 0 {
        assert(a + b =~= a);
        assert(starting_at(a, k) + starting_at(b, k) =~= starting_at(a, k));
    } else {
        lemma_starting_at_add(a, b.drop_last(), k);
        assert((a + b).drop_last() =~= a + b.drop_last());
        assert((a + b).last() == b.last());
        if b.last().0 == k {
            assert(starting_at(a, k) + starting_at(b.drop_last(), k).push(b.last()) =~= (
            starting_at(a, k) + starting_at(b.drop_last(), k)).push(b.last()));
        }
    }
}

proof fn lemma_starting_at_witness(s: Seq<SymbolRange>, k: u64)
    ensures
        starting_at(s, k).len() > 0 ==> exists|i: int| 0 <= i < s.len() && #[trigger] s[i].0 == k,
        (forall|i: int| 0 <= i < s.len() ==> #[trigger] s[i].0 != k) ==> starting_at(s, k).len()
            == 0,
    decreases s.len(),
{
    if s.len() > 0 {
        let p = s.drop_last();
        lemma_starting_at_witness(p, k);
        assert forall|i: int| 0 <= i < p.len() implies #[trigger] p[i] == s[i] by {}
        if s.last().0 == k {
            assert(s[s.len() - 1].0 == k);
        } else if starting_at(s, k).len() > 0 {
            let i = choose|i: int| 0 <= i < p.len() && #[trigger] p[i].0 == k;
            assert(s[i] == p[i]);
        }
        if forall|i: int| 0 <= i < s.len() ==> #[trigger] s[i].0 != k {
            assert(s[s.len() - 1].0 != k);
            assert forall|i: int| 0 <= i < p.len() implies #[trigger] p[i].0 != k by {
                assert(s[i] == p[i]);
            }
        }
    }
}

/// Inserting by start puts the new symbol last among those with its start.
proof fn lemma_starting_at_insert(t: Seq<SymbolRange>, x: SymbolRange, k: u64)
    requires
        sorted_by_start(t),
    ensures
        starting_at(insert_by_start(t, x), k) == if x.0 == k {
            starting_at(t, k).push(x)
        } else {
            starting_at(t, k)
        },
{
    lemma_count_sorted(t, x.0);
    lemma_count_bound(t, x.0);
    let q = count_starting_by(t, x.0) as int;
    let front = t.take(q);
    let back = t.skip(q);
    assert(t =~= front + back);
    assert(insert_by_start(t, x) =~= front + seq![x] + back);
    lemma_starting_at_add(front, back, k);
    lemma_starting_at_add(front + seq![x], back, k);
    lemma_starting_at_add(front, seq![x], k);
    assert(seq![x].drop_last() =~= Seq::<SymbolRange>::empty());
    assert(starting_at(seq![x].drop_last(), k) =~= Seq::<SymbolRange>::empty());
    if x.0 == k {
        assert forall|i: int| 0 <= i < back.len() implies #[trigger] back[i].0 != k by {
            assert(back[i] == t[q + i]);
        }
        lemma_starting_at_witness(back, k);
        assert(starting_at(back, k) =~= Seq::<SymbolRange>::empty());
        assert(starting_at(seq![x], k) =~= seq![x]);
        assert(starting_at(front, k) + starting_at(back, k) =~= starting_at(front, k));
        assert(starting_at(front, k) + seq![x] + starting_at(back, k) =~= starting_at(front, k).push(x));
    } else {
        assert(starting_at(seq![x], k) =~= Seq::<SymbolRange>::empty());
        assert(starting_at(front, k) + Seq::<SymbolRange>::empty() =~= starting_at(front, k));
    }
}

/// Sorting by start keeps, for every start, the symbols with that start in
/// their order in `s`: the sort is stable.
pub proof fn law_sort_is_stable(s: Seq<SymbolRange>, k: u64)
    ensures
        starting_at(sort_by_start(s), k) == starting_at(s, k),
    decreases s.len(),
{
    if s.len() > 0 {
        law_sort_is_stable(s.drop_last(), k);
        lemma_sort_sorted(s.drop_last());
        lemma_starting_at_insert(sort_by_start(s.drop_last()), s.last(), k);
    }
}

/// Two sorted tables that hold, for every start, the same symbols with that
/// start in the same order, are the same table.
proof fn lemma_sorted_unique(u: Seq<SymbolRange>, v: Seq<SymbolRange>)
    requires
        sorted_by_start(u),
        sorted_by_start(v),
        forall|k: u64| #[trigger] starting_at(u, k) == starting_at(v, k),
    ensures
        u == v,
    decreases u.len(),
{
    if u.len() == 0 {
        if v.len() > 0 {
            assert(starting_at(v, v.last().0).len() > 0);
            assert(starting_at(u, v.last().0).len() == 0);
        }
        assert(u =~= v);
    } else {
        let a = u.last();
        let kk = a.0;
        assert(starting_at(u, kk).len() > 0);
        assert(starting_at(v, kk) == starting_at(u, kk));
        if v.len() == 0 {
            assert(starting_at(v, kk).len() == 0);
        }
        let b = v.last();
        lemma_starting_at_witness(v, kk);
        let i = choose|i: int| 0 <= i < v.len() && #[trigger] v[i].0 == kk;
        assert(v[i].0 <= v[v.len() - 1].0);
        assert(starting_at(v, b.0).len() > 0);
        assert(starting_at(u, b.0) == starting_at(v, b.0));
        lemma_starting_at_witness(u, b.0);
        let j = choose|j: int| 0 <= j < u.len() && #[trigger] u[j].0 == b.0;
        assert(u[j].0 <= u[u.len() - 1].0);
        assert(b.0 == kk);
        let su = starting_at(u.drop_last(), kk);
        let sv = starting_at(v.drop_last(), kk);
        assert(su.push(a) == sv.push(b));
        assert(su.push(a).last() == a);
        assert(sv.push(b).last() == b);
        assert(su =~= su.push(a).drop_last());
        assert(sv =~= sv.push(b).drop_last());
        let u1 = u.drop_last();
        let v1 = v.drop_last();
        assert forall|k: u64| #[trigger] starting_at(u1, k) == starting_at(v1, k) by {
            assert(starting_at(u, k) == starting_at(v, k));
        }
        lemma_sorted_unique(u1, v1);
        assert(u =~= u1.push(a));
        assert(v =~= v1.push(b));
    }
}

/// The symbols, as the specifications see them, of stored entries.
pub open spec fn symbols_of(v: Seq<(u64, u64, String)>) -> Seq<SymbolRange> {
    v.map_values(|e: (u64, u64, String)| e@)
}

/// How many of the sorted `entries` start at or below `key`, found by binary
/// search (`partition_point`).
fn upper_bound(entries: &Vec<(u64, u64, String)>, key: u64) -> (c: usize)
    requires
        sorted_by_start(symbols_of(entries@)),
    ensures
        c == count_starting_by(symbols_of(entries@), key),
{
    let ghost t = symbols_of(entries@);
    let mut lo: usize = 0;
    let mut hi: usize = entries.len();
    while lo < hi
        invariant
            0 <= lo <= hi <= entries@.len(),
            t == symbols_of(entries@),
            sorted_by_start(t),
            forall|k: int| 0 <= k < lo ==> #[trigger] t[k].0 <= key,
            forall|k: int| hi <= k < t.len() ==> #[trigger] t[k].0 > key,
        decreases hi - lo,
    {
        let mid = lo + (hi - lo) / 2;
        assert(t[mid as int] == entries@[mid as int]@);
        if entries[mid].0 <= key {
            assert forall|k: int| 0 <= k < mid + 1 implies #[trigger] t[k].0 <= key by {
                assert(t[k].0 <= t[mid as int].0);
            }
            lo = mid + 1;
        } else {
            assert forall|k: int| mid <= k < t.len() implies #[trigger] t[k].0 > key by {
                assert(t[mid as int].0 <= t[k].0);
            }
            hi = mid;
        }
    }
    proof {
        lemma_count_split(t, key, lo as int);
    }
    lo
}

proof fn lemma_starting_at_push(s: Seq<SymbolRange>, x: SymbolRange, k: u64)
    ensures
        starting_at(s.push(x), k) == if x.0 == k {
            starting_at(s, k).push(x)
        } else {
            starting_at(s, k)
        },
{
    assert(s.push(x).drop_last() =~= s);
}

/// Merges two runs sorted by start into one, taking from `a` first where
/// starts are equal, so that symbols with one start keep their order.
fn merge_runs(
    a: VecDeque<(u64, u64, String)>,
    b: VecDeque<(u64, u64, String)>,
) -> (out: VecDeque<(u64, u64, String)>)
    requires
        sorted_by_start(symbols_of(a@)),
        sorted_by_start(symbols_of(b@)),
    ensures
        sorted_by_start(symbols_of(out@)),
        forall|k: u64| #[trigger]
            starting_at(symbols_of(out@), k) == starting_at(symbols_of(a@), k) + starting_at(
                symbols_of(b@),
                k,
            ),
{
    let ghost sa = symbols_of(a@);
    let ghost sb = symbols_of(b@);
    let mut a = a;
    let mut b = b;
    let mut out: VecDeque<(u64, u64, String)> = VecDeque::new();
    let ghost mut i: int = 0;
    let ghost mut j: int = 0;
    assert forall|k: u64| #[trigger] starting_at(symbols_of(out@), k) == starting_at(sa.take(i), k)
        + starting_at(sb.take(j), k) by {
        assert(sa.take(0) =~= Seq::<SymbolRange>::empty());
        assert(sb.take(0) =~= Seq::<SymbolRange>::empty());
        assert(symbols_of(out@) =~= Seq::<SymbolRange>::empty());
        assert(starting_at(sa.take(i), k) + starting_at(sb.take(j), k) =~= Seq::<
            SymbolRange,
        >::empty());
    }
    assert(symbols_of(a@) =~= sa.skip(0));
    assert(symbols_of(b@) =~= sb.skip(0));
    while a.len() > 0 || b.len() > 0
        invariant
            sorted_by_start(sa),
            sorted_by_start(sb),
            0 <= i <= sa.len(),
            0 <= j <= sb.len(),
            symbols_of(a@) == sa.skip(i),
            symbols_of(b@) == sb.skip(j),
            sorted_by_start(symbols_of(out@)),
            symbols_of(out@).len() == i + j,
            symbols_of(out@).len() > 0 ==> (forall|q: int|
                i <= q < sa.len() ==> symbols_of(out@).last().0 <= #[trigger] sa[q].0),
            symbols_of(out@).len() > 0 ==> (forall|q: int|
                j <= q < sb.len() ==> symbols_of(out@).last().0 <= #[trigger] sb[q].0),
            forall|p: int, q: int| 0 <= p < j && i <= q < sa.len() ==> #[trigger] sb[p].0 < #[trigger] sa[q].0,
            forall|k: u64| #[trigger]
                starting_at(symbols_of(out@), k) == starting_at(sa.take(i), k) + starting_at(
                    sb.take(j),
                    k,
                ),
        decreases a@.len() + b@.len(),
    {
        let ghost so = symbols_of(out@);
        assert(symbols_of(a@).len() == a@.len());
        assert(symbols_of(b@).len() == b@.len());
        let take_a = if a.len() == 0 {
            false
        } else if b.len() == 0 {
            true
        } else {
            assert(symbols_of(a@)[0] == a@[0]@);
            assert(symbols_of(b@)[0] == b@[0]@);
            a[0].0 <= b[0].0
        };
        if take_a {
            assert(sa.skip(i)[0] == sa[i]);
            let ghost before = a@;
            match a.pop_front() {
                Some(x) => {
                    assert(x@ == sa[i]);
                    out.push_back(x);
                    proof {
                        assert(symbols_of(out@) =~= so.push(sa[i]));
                        assert forall|m: int| 0 <= m < a@.len() implies #[trigger] symbols_of(a@)[m] == sa.skip(i + 1)[m] by {
                            assert(a@[m] == before[m + 1]);
                            assert(symbols_of(before)[m + 1] == sa.skip(i)[m + 1]);
                        }
                        assert(symbols_of(a@) =~= sa.skip(i + 1));
                        if j < sb.len() {
                            assert(sb.skip(j)[0] == sb[j]);
                        }
                        assert forall|k: u64| #[trigger] starting_at(symbols_of(out@), k)
                            == starting_at(sa.take(i + 1), k) + starting_at(sb.take(j), k) by {
                            lemma_starting_at_push(so, sa[i], k);
                            assert(sa.take(i + 1) =~= sa.take(i).push(sa[i]));
                            lemma_starting_at_push(sa.take(i), sa[i], k);
                            if sa[i].0 == k {
                                assert forall|p: int| 0 <= p < sb.take(j).len() implies #[trigger] sb.take(j)[p].0 != k by {
                                    assert(sb.take(j)[p] == sb[p]);
                                    assert(sb[p].0 < sa[i].0);
                                }
                                lemma_starting_at_witness(sb.take(j), k);
                                assert(starting_at(sb.take(j), k) =~= Seq::<SymbolRange>::empty());
                                assert((starting_at(sa.take(i), k) + starting_at(sb.take(j), k)).push(sa[i])
                                    =~= starting_at(sa.take(i), k).push(sa[i]) + starting_at(sb.take(j), k));
                            }
                        }
                        i = i + 1;
                    }
                },
                None => {},
            }
        } else {
            proof {
                assert(sb.skip(j)[0] == sb[j]);
                if i < sa.len() {
                    assert(sa.skip(i)[0] == sa[i]);
                }
            }
            let ghost before = b@;
            match b.pop_front() {
                Some(y) => {
                    assert(y@ == sb[j]);
                    out.push_back(y);
                    proof {
                        assert(symbols_of(out@) =~= so.push(sb[j]));
                        assert forall|m: int| 0 <= m < b@.len() implies #[trigger] symbols_of(b@)[m] == sb.skip(j + 1)[m] by {
                            assert(b@[m] == before[m + 1]);
                            assert(symbols_of(before)[m + 1] == sb.skip(j)[m + 1]);
                        }
                        assert(symbols_of(b@) =~= sb.skip(j + 1));
                        assert forall|k: u64| #[trigger] starting_at(symbols_of(out@), k)
                            == starting_at(sa.take(i), k) + starting_at(sb.take(j + 1), k) by {
                            lemma_starting_at_push(so, sb[j], k);
                            assert(sb.take(j + 1) =~= sb.take(j).push(sb[j]));
                            lemma_starting_at_push(sb.take(j), sb[j], k);
                            if sb[j].0 == k {
                                assert((starting_at(sa.take(i), k) + starting_at(sb.take(j), k)).push(sb[j])
                                    =~= starting_at(sa.take(i), k) + starting_at(sb.take(j), k).push(sb[j]));
                            }
                        }
                        j = j + 1;
                    }
                },
                None => {},
            }
        }
    }
    assert(sa.take(i) =~= sa);
    assert(sb.take(j) =~= sb);
    out
}

/// Sorts `v` by start, stably (a merge sort).
fn sort_runs(v: VecDeque<(u64, u64, String)>) -> (r: VecDeque<(u64, u64, String)>)
    ensures
        sorted_by_start(symbols_of(r@)),
        forall|k: u64| #[trigger] starting_at(symbols_of(r@), k) == starting_at(symbols_of(v@), k),
    decreases v@.len(),
{
    if v.len() <= 1 {
        return v;
    }
    let ghost sv = symbols_of(v@);
    let mut a = v;
    let mid = a.len() / 2;
    let b = a.split_off(mid);
    let ghost ga = symbols_of(a@);
    let ghost gb = symbols_of(b@);
    assert(sv =~= ga + gb);
    let a = sort_runs(a);
    let b = sort_runs(b);
    let out = merge_runs(a, b);
    assert forall|k: u64| #[trigger] starting_at(symbols_of(out@), k) == starting_at(sv, k) by {
        lemma_starting_at_add(ga, gb, k);
        assert(starting_at(symbols_of(a@), k) == starting_at(ga, k));
        assert(starting_at(symbols_of(b@), k) == starting_at(gb, k));
    }
    out
}

/// The ranges of a perf map file, sorted by start. Addresses are absolute
/// process virtual addresses, since that is what JIT engines write.
pub struct JitSymbolTable {
    entries: Vec<(u64, u64, String)>,
    /// `reach[k]` is the greatest end among `entries[..=k]`: no symbol before
    /// `k + 1` holds an address at or beyond it.
    reach: Vec<u64>,
}

impl View for JitSymbolTable {
    type V = Seq<SymbolRange>;

    /// The symbols of the table, in the order of their starts.
    closed spec fn view(&self) -> Seq<SymbolRange> {
        symbols_of(self.entries@)
    }
}

impl JitSymbolTable {
    #[verifier::type_invariant]
    spec fn well_formed(self) -> bool {
        &&& sorted_by_start(symbols_of(self.entries@))
        &&& self.reach@.len() == self.entries@.len()
        &&& forall|k: int|
            0 <= k < self.reach@.len() ==> #[trigger] self.reach@[k] == max_end(
                symbols_of(self.entries@),
                k + 1,
            )
    }

    /// The table of entries already sorted by start.
    fn from_sorted(entries: Vec<(u64, u64, String)>) -> (t: Self)
        requires
            sorted_by_start(symbols_of(entries@)),
        ensures
            t@ == symbols_of(entries@),
    {
        let ghost sy = symbols_of(entries@);
        let mut reach: Vec<u64> = Vec::new();
        let mut m: u64 = 0;
        let mut k: usize = 0;
        while k < entries.len()
            invariant
                sy == symbols_of(entries@),
                k <= entries@.len(),
                reach@.len() == k,
                m == max_end(sy, k as int),
                forall|j: int| 0 <= j < k ==> #[trigger] reach@[j] == max_end(sy, j + 1),
            decreases entries@.len() - k,
        {
            assert(sy[k as int] == entries@[k as int]@);
            if m < entries[k].1 {
                m = entries[k].1;
            }
            reach.push(m);
            k = k + 1;
        }
        JitSymbolTable { entries, reach }
    }

    /// The table of a perf-map text, or `None` where a symbol line's range
    /// ends beyond the 64-bit address space (its `start + size` overflows).
    pub fn try_parse(text: &str) -> (r: Option<Self>)
        ensures
            r is Some <==> map_fits(text@),
            r matches Some(t) ==> t@ == sort_by_start(map_symbols(text@)),
    {
        let mut found: VecDeque<(u64, u64, String)> = VecDeque::new();
        let mut line: Vec<char> = Vec::new();
        let ghost chars = text@;
        for c in it: text.chars()
            invariant
                chars == text@,
                it.seq() == chars,
                line@ == open_line(chars.take(it.index() as int)),
                symbols_of(found@) == line_symbols(
                    ended_lines(chars.take(it.index() as int)).map_values(
                        |l: Seq<char>| strip_cr(l),
                    ),
                ),
                forall|k: int|
                    0 <= k < ended_lines(chars.take(it.index() as int)).len() ==> #[trigger] line_fits(
                        strip_cr(ended_lines(chars.take(it.index() as int))[k]),
                    ),
        {
            let ghost i = it.index() as int;
            let ghost pre = chars.take(i);
            let ghost post = chars.take(i + 1);
            assert(c == chars[i]);
            assert(post.drop_last() =~= pre);
            assert(post.last() == c);
            if c == '\n' {
                let n = line.len();
                if n > 0 && line[n - 1] == '\r' {
                    line.pop();
                }
                let ghost l = strip_cr(open_line(pre));
                assert(line@ =~= l);
                assert(ended_lines(post) == ended_lines(pre).push(open_line(pre)));
                let ghost ls = ended_lines(pre).map_values(|l: Seq<char>| strip_cr(l));
                assert(ended_lines(post).map_values(|l: Seq<char>| strip_cr(l)) =~= ls.push(l));
                assert(ls.push(l).drop_last() =~= ls);
                proof {
                    lemma_ended_lines_prefix(chars, i + 1);
                    assert(ended_lines(post)[ended_lines(pre).len() as int] == open_line(pre));
                }
                let ghost x = line_symbols(ls);
                match parse_map_line(line.as_slice()) {
                    Some((start, size, name)) => {
                        if size > u64::MAX - start {
                            proof {
                                let k = ended_lines(pre).len() as int;
                                assert(text_lines(chars)[k] == strip_cr(ended_lines(chars)[k]));
                                assert(!line_fits(text_lines(chars)[k]));
                            }
                            return None;
                        }
                        let e = (start, start + size, name);
                        assert(line_symbols(ls.push(l)) == x.push(e@));
                        found.push_back(e);
                        assert(symbols_of(found@) =~= x.push(e@));
                    },
                    None => {
                        assert(line_symbols(ls.push(l)) == x);
                    },
                }
                line = Vec::new();
                assert(open_line(post) =~= Seq::<char>::empty());
            } else {
                line.push(c);
                assert(line@ =~= open_line(post));
                assert(ended_lines(post) == ended_lines(pre));
            }
        }
        let ghost ended = ended_lines(chars).map_values(|l: Seq<char>| strip_cr(l));
        assert(chars.take(chars.len() as int) =~= chars);
        if line.len() > 0 {
            assert(text_lines(chars) =~= ended.push(line@));
            assert(text_lines(chars).drop_last() =~= ended);
            let ghost x = line_symbols(ended);
            match parse_map_line(line.as_slice()) {
                Some((start, size, name)) => {
                    if size > u64::MAX - start {
                        assert(!line_fits(text_lines(chars)[ended.len() as int]));
                        return None;
                    }
                    let e = (start, start + size, name);
                    assert(map_symbols(chars) == x.push(e@));
                    found.push_back(e);
                    assert(symbols_of(found@) =~= x.push(e@));
                },
                None => {
                    assert(map_symbols(chars) == x);
                },
            }
        } else {
            assert(text_lines(chars) =~= ended);
        }
        assert forall|k: int| 0 <= k < text_lines(chars).len() implies #[trigger] line_fits(
            text_lines(chars)[k],
        ) by {
            if k < ended.len() {
                assert(text_lines(chars)[k] == strip_cr(ended_lines(chars)[k]));
            }
        }
        let ghost symbols = map_symbols(chars);
        assert(symbols_of(found@) == symbols);
        let mut sorted = sort_runs(found);
        let ghost target = symbols_of(sorted@);
        let mut entries: Vec<(u64, u64, String)> = Vec::new();
        assert(symbols_of(sorted@) =~= target.skip(0));
        while sorted.len() > 0
            invariant
                symbols_of(entries@) == target.take(entries@.len() as int),
                symbols_of(sorted@) == target.skip(entries@.len() as int),
                entries@.len() <= target.len(),
            decreases sorted@.len(),
        {
            let ghost n = entries@.len() as int;
            assert(symbols_of(sorted@).len() == sorted@.len());
            let ghost before = sorted@;
            match sorted.pop_front() {
                Some(e) => {
                    assert(target.skip(n)[0] == target[n]);
                    entries.push(e);
                    assert(symbols_of(entries@) =~= target.take(n + 1));
                    assert forall|m: int| 0 <= m < sorted@.len() implies #[trigger] symbols_of(sorted@)[m] == target.skip(n + 1)[m] by {
                        assert(sorted@[m] == before[m + 1]);
                        assert(symbols_of(before)[m + 1] == target.skip(n)[m + 1]);
                    }
                    assert(symbols_of(sorted@) =~= target.skip(n + 1));
                },
                None => {},
            }
        }
        assert(symbols_of(sorted@).len() == sorted@.len());
        assert(target.take(entries@.len() as int) =~= target);
        proof {
            lemma_sort_sorted(symbols);
            assert forall|k: u64| #[trigger] starting_at(target, k) == starting_at(
                sort_by_start(symbols),
                k,
            ) by {
                law_sort_is_stable(symbols, k);
            }
            lemma_sorted_unique(target, sort_by_start(symbols));
        }
        Some(Self::from_sorted(entries))
    }

    /// The table of a perf-map text: the symbol lines sorted by start, with
    /// lines that are not `HEX_START HEX_SIZE name` skipped. Where two lines
    /// share a start, the later line comes later in the table.
    pub fn parse(text: &str) -> (t: Self)
        requires
            map_fits(text@),
        ensures
            t@ == sort_by_start(map_symbols(text@)),
    {
        match Self::try_parse(text) {
            Some(t) => t,
            None => {
                proof {
                    assert(false);
                }
                Self::from_sorted(Vec::new())
            },
        }
    }

    /// The symbol whose `[start, end)` range contains `ip`, as
    /// `(name, ip - start)`. Where several ranges hold `ip`, the one with the
    /// greatest start wins, and of several with that start the later line.
    pub fn resolve(&self, ip: u64) -> (r: Option<(&str, u64)>)
        ensures
            match r {
                Some((name, offset)) => resolve_in(self@, ip) == Some((name@, offset)),
                None => resolve_in(self@, ip) is None,
            },
    {
        proof {
            use_type_invariant(self);
        }
        let ghost t = self@;
        let c = upper_bound(&self.entries, ip);
        proof {
            lemma_count_sorted(t, ip);
            lemma_count_bound(t, ip);
        }
        let mut k = c;
        while k > 0
            invariant
                t == self@,
                t == symbols_of(self.entries@),
                self.reach@.len() == self.entries@.len(),
                forall|j: int|
                    0 <= j < self.reach@.len() ==> #[trigger] self.reach@[j] == max_end(t, j + 1),
                k <= c <= t.len(),
                forall|j: int| 0 <= j < c ==> #[trigger] t[j].0 <= ip,
                forall|j: int| k <= j < t.len() ==> !#[trigger] holds(t[j], ip),
            decreases k,
        {
            if self.reach[k - 1] <= ip {
                proof {
                    lemma_max_end(t, k as int);
                    assert forall|j: int| 0 <= j < t.len() implies !#[trigger] holds(t[j], ip) by {
                        if j < k {
                            assert(t[j].1 <= max_end(t, k as int));
                        }
                    }
                    lemma_last_holder_at(t, ip, -1);
                }
                return None;
            }
            let e = &self.entries[k - 1];
            assert(t[k - 1] == e@);
            if ip < e.1 {
                proof {
                    lemma_last_holder_at(t, ip, k - 1);
                }
                return Some((e.2.as_str(), ip - e.0));
            }
            k = k - 1;
        }
        proof {
            lemma_last_holder_at(t, ip, -1);
        }
        None
    }

    pub fn is_empty(&self) -> (b: bool)
        ensures
            b == (self@.len() == 0),
    {
        self.entries.len() == 0
    }
}

/// Of the symbols of `s` whose range holds `ip`, the one with the greatest
/// start; of several with that start, the last one in `s`.
pub open spec fn closest_holder(s: Seq<SymbolRange>, ip: u64) -> Option<SymbolRange>
    decreases s.len(),
{
    if s.len() == 0 {
        None
    } else {
        let p = closest_holder(s.drop_last(), ip);
        let x = s.last();
        if holds(x, ip) && (match p {
            Some(w) => w.0 <= x.0,
            None => true,
        }) {
            Some(x)
        } else {
            p
        }
    }
}

/// Two symbol ranges that do not overlap: the one that starts first (either,
/// where they start together) ends at or before the other starts.
pub open spec fn separated(a: SymbolRange, b: SymbolRange) -> bool {
    &&& a.0 <= b.0 ==> a.1 <= b.0
    &&& b.0 <= a.0 ==> b.1 <= a.0
}

pub proof fn lemma_closest_holder(s: Seq<SymbolRange>, ip: u64)
    ensures
        closest_holder(s, ip) matches Some(w) ==> {
            &&& exists|k: int|
                0 <= k < s.len() && s[k] == w && forall|j: int|
                    k < j < s.len() && #[trigger] holds(s[j], ip) ==> s[j].0 < w.0
            &&& holds(w, ip)
            &&& forall|k: int| 0 <= k < s.len() && #[trigger] holds(s[k], ip) ==> s[k].0 <= w.0
        },
        closest_holder(s, ip) is None ==> forall|k: int|
            0 <= k < s.len() ==> !#[trigger] holds(s[k], ip),
    decreases s.len(),
{
    if s.len() > 0 {
        let p = s.drop_last();
        let x = s.last();
        lemma_closest_holder(p, ip);
        assert forall|k: int| 0 <= k < p.len() implies #[trigger] s[k] == p[k] by {}
        let pw = closest_holder(p, ip);
        if holds(x, ip) && (match pw {
            Some(w) => w.0 <= x.0,
            None => true,
        }) {
            assert(s[s.len() - 1] == x);
            assert(forall|j: int| s.len() - 1 < j < s.len() && #[trigger] holds(s[j], ip) ==> s[j].0 < x.0);
        } else if let Some(w) = pw {
            let k0 = choose|k: int|
                0 <= k < p.len() && p[k] == w && forall|j: int|
                    k < j < p.len() && #[trigger] holds(p[j], ip) ==> p[j].0 < w.0;
            assert(s[k0] == w);
            assert forall|j: int| k0 < j < s.len() && #[trigger] holds(s[j], ip) implies s[j].0
                < w.0 by {
                if j < p.len() {
                    assert(s[j] == p[j]);
                }
            }
        }
    }
}

/// Resolving in the stably sorted table gives, for every address, the
/// symbol whose range holds it with the greatest start, and where several
/// lines with that start hold it, the last of them in the file.
pub proof fn law_resolve_closest_holder(s: Seq<SymbolRange>, ip: u64)
    ensures
        resolve_in(sort_by_start(s), ip) == match closest_holder(s, ip) {
            Some(e) => Some((e.2, (ip - e.0) as u64)),
            None => None,
        },
{
    lemma_holder_of_sorted(s, ip);
}

proof fn lemma_holder_of_sorted(s: Seq<SymbolRange>, ip: u64)
    ensures
        ({
            let u = sort_by_start(s);
            let k = last_holder(u, ip);
            closest_holder(s, ip) == if k >= 0 {
                Some(u[k])
            } else {
                None::<SymbolRange>
            }
        }),
    decreases s.len(),
{
    if s.len() > 0 {
        let p = s.drop_last();
        let x = s.last();
        lemma_holder_of_sorted(p, ip);
        let t = sort_by_start(p);
        lemma_sort_sorted(p);
        lemma_insert_sorted(t, x);
        lemma_count_sorted(t, x.0);
        lemma_count_bound(t, x.0);
        lemma_last_holder(t, ip);
        let q = count_starting_by(t, x.0) as int;
        let m = last_holder(t, ip);
        let u = sort_by_start(s);
        assert(u == t.insert(q, x));
        assert forall|k: int| 0 <= k < q implies #[trigger] u[k] == t[k] by {}
        assert forall|k: int| q < k < u.len() implies #[trigger] u[k] == t[k - 1] by {}
        assert(u[q] == x);
        if holds(x, ip) {
            if m >= q {
                assert(!(t[m].0 <= x.0));
                assert forall|j: int| m + 1 < j < u.len() implies !#[trigger] holds(u[j], ip) by {
                    assert(u[j] == t[j - 1]);
                }
                lemma_last_holder_at(u, ip, m + 1);
            } else {
                if m >= 0 {
                    assert(t[m].0 <= x.0);
                }
                assert forall|j: int| q < j < u.len() implies !#[trigger] holds(u[j], ip) by {
                    assert(u[j] == t[j - 1]);
                }
                lemma_last_holder_at(u, ip, q);
            }
        } else {
            if m < q {
                assert forall|j: int| m < j < u.len() implies !#[trigger] holds(u[j], ip) by {
                    if j > q {
                        assert(u[j] == t[j - 1]);
                    }
                }
                if m >= 0 {
                    assert(u[m] == t[m]);
                }
                lemma_last_holder_at(u, ip, m);
            } else {
                assert forall|j: int| m + 1 < j < u.len() implies !#[trigger] holds(u[j], ip) by {
                    assert(u[j] == t[j - 1]);
                }
                lemma_last_holder_at(u, ip, m + 1);
            }
        }
    }
}

/// Whatever a table resolves comes from one of its lines: the line's range
/// `[start, end)` holds the address, and the offset is measured from the
/// line's start.
pub proof fn law_resolve_sound(s: Seq<SymbolRange>, ip: u64)
    ensures
        resolve_in(sort_by_start(s), ip) matches Some((name, offset)) ==> exists|k: int|
            0 <= k < s.len() && #[trigger] s[k].0 <= ip && ip < s[k].1 && s[k].2 == name
                && offset == ip - s[k].0,
{
    law_resolve_exact(s, ip);
}

/// An address inside some line's range `[start, end)`, wherever inside,
/// always resolves.
pub proof fn law_resolve_complete(s: Seq<SymbolRange>, ip: u64, k: int)
    requires
        0 <= k < s.len(),
        s[k].0 <= ip,
        ip < s[k].1,
    ensures
        resolve_in(sort_by_start(s), ip) is Some,
{
    law_resolve_exact(s, ip);
}

/// What resolving gives, in terms of the lines of the map alone: `None`
/// exactly where no line's range `[start, end)` holds the address; otherwise
/// the line, among those whose range holds it, with the greatest start, and
/// of those with that start the latest, as `(name, address - start)`.
pub proof fn law_resolve_exact(s: Seq<SymbolRange>, ip: u64)
    ensures
        resolve_in(sort_by_start(s), ip) is None <==> forall|j: int|
            0 <= j < s.len() ==> !(#[trigger] s[j].0 <= ip && ip < s[j].1),
        resolve_in(sort_by_start(s), ip) matches Some((name, offset)) ==> exists|k: int|
            {
                &&& 0 <= k < s.len()
                &&& s[k].0 <= ip && ip < s[k].1
                &&& s[k].2 == name
                &&& offset == ip - s[k].0
                &&& forall|j: int|
                    0 <= j < s.len() && #[trigger] s[j].0 <= ip && ip < s[j].1 ==> s[j].0 < s[k].0
                        || (s[j].0 == s[k].0 && j <= k)
            },
{
    law_resolve_closest_holder(s, ip);
    lemma_closest_holder(s, ip);
    if let Some(w) = closest_holder(s, ip) {
        let k = choose|k: int|
            0 <= k < s.len() && s[k] == w && forall|j: int|
                k < j < s.len() && #[trigger] holds(s[j], ip) ==> s[j].0 < w.0;
        assert forall|j: int|
            0 <= j < s.len() && #[trigger] s[j].0 <= ip && ip < s[j].1 implies s[j].0 < s[k].0 || (
            s[j].0 == s[k].0 && j <= k) by {
            assert(holds(s[j], ip));
        }
        assert(holds(s[k], ip));
    } else {
        assert forall|j: int| 0 <= j < s.len() implies !(#[trigger] s[j].0 <= ip && ip < s[j].1) by {
            assert(!holds(s[j], ip));
        }
    }
}

/// Where no two ranges of the map overlap, an address inside a range
/// `[start, end)` resolves to that range's symbol, at its offset from the
/// start.
pub proof fn law_resolve_separated(s: Seq<SymbolRange>, ip: u64, k: int)
    requires
        forall|i: int, j: int|
            0 <= i < s.len() && 0 <= j < s.len() && i != j ==> separated(
                #[trigger] s[i],
                #[trigger] s[j],
            ),
        0 <= k < s.len(),
        s[k].0 <= ip,
        ip < s[k].1,
    ensures
        resolve_in(sort_by_start(s), ip) == Some((s[k].2, (ip - s[k].0) as u64)),
{
    law_resolve_closest_holder(s, ip);
    lemma_closest_holder(s, ip);
    assert(holds(s[k], ip));
    let w = closest_holder(s, ip)->0;
    let j = choose|j: int| 0 <= j < s.len() && s[j] == w;
    if j != k {
        assert(separated(s[j], s[k]));
    }
}

proof fn lemma_line_symbols_add(a: Seq<Seq<char>>, b: Seq<Seq<char>>)
    ensures
        line_symbols(a + b) == line_symbols(a) + line_symbols(b),
    decreases b.len(),
{
    if b.len() == 0 {
        assert(a + b =~= a);
        assert(line_symbols(a) + line_symbols(b) =~= line_symbols(a));
    } else {
        lemma_line_symbols_add(a, b.drop_last());
        assert((a + b).drop_last() =~= a + b.drop_last());
        assert((a + b).last() == b.last());
        if let Some(e) = line_symbol(b.last()) {
            assert(line_symbols(a) + line_symbols(b.drop_last()).push(e) =~= (line_symbols(a)
                + line_symbols(b.drop_last())).push(e));
        }
    }
}

proof fn lemma_line_symbols_none(m: Seq<Seq<char>>)
    requires
        forall|i: int| 0 <= i < m.len() ==> #[trigger] line_symbol(m[i]) is None,
    ensures
        line_symbols(m) == Seq::<SymbolRange>::empty(),
    decreases m.len(),
{
    if m.len() > 0 {
        assert(line_symbol(m[m.len() - 1]) is None);
        assert forall|i: int| 0 <= i < m.drop_last().len() implies #[trigger] line_symbol(
            m.drop_last()[i],
        ) is None by {
            assert(m.drop_last()[i] == m[i]);
        }
        lemma_line_symbols_none(m.drop_last());
    }
}

/// Lines that describe no symbol change nothing: a map whose lines are those
/// of another with such lines put in anywhere has the same symbols, in the
/// same order, and so parses to the same table.
pub proof fn law_symbolless_lines_change_nothing(
    t1: Seq<char>,
    t2: Seq<char>,
    a: Seq<Seq<char>>,
    m: Seq<Seq<char>>,
    b: Seq<Seq<char>>,
)
    requires
        text_lines(t1) == a + b,
        text_lines(t2) == a + m + b,
        forall|i: int| 0 <= i < m.len() ==> #[trigger] map_line_fields(m[i]) is None,
    ensures
        map_symbols(t2) == map_symbols(t1),
        sort_by_start(map_symbols(t2)) == sort_by_start(map_symbols(t1)),
{
    assert forall|i: int| 0 <= i < m.len() implies #[trigger] line_symbol(m[i]) is None by {
        assert(map_line_fields(m[i]) is None);
    }
    lemma_line_symbols_none(m);
    lemma_line_symbols_add(a, b);
    lemma_line_symbols_add(a + m, b);
    lemma_line_symbols_add(a, m);
    assert(line_symbols(a) + Seq::<SymbolRange>::empty() =~= line_symbols(a));
}

proof fn lemma_line_symbols_multiset(ls1: Seq<Seq<char>>, ls2: Seq<Seq<char>>)
    requires
        ls1.to_multiset() == ls2.to_multiset(),
    ensures
        line_symbols(ls1).to_multiset() == line_symbols(ls2).to_multiset(),
    decreases ls1.len(),
{
    broadcast use vstd::multiset::group_multiset_axioms, vstd::seq_lib::to_multiset_build,
        vstd::seq_lib::to_multiset_remove, vstd::seq_lib::to_multiset_contains,
        vstd::seq_lib::to_multiset_len, vstd::seq_lib::lemma_multiset_commutative;

    if ls1.len() == 0 {
        assert(ls2.to_multiset().len() == 0);
        assert(ls2.len() == 0);
        assert(ls1 =~= ls2);
    } else {
        let p = ls1.drop_last();
        let l = ls1.last();
        assert(ls1 =~= p.push(l));
        assert(ls1.to_multiset().count(l) > 0);
        assert(ls2.contains(l));
        let i = choose|i: int| 0 <= i < ls2.len() && ls2[i] == l;
        let r = ls2.remove(i);
        assert(r.to_multiset() =~= p.to_multiset());
        lemma_line_symbols_multiset(p, r);
        let front = ls2.take(i);
        let back = ls2.skip(i + 1);
        assert(ls2 =~= front + seq![l] + back);
        assert(r =~= front + back);
        assert(ls1 =~= p + seq![l]);
        lemma_line_symbols_add(front + seq![l], back);
        lemma_line_symbols_add(front, seq![l]);
        lemma_line_symbols_add(front, back);
        lemma_line_symbols_add(p, seq![l]);
        let sl = line_symbols(seq![l]);
        let sf = line_symbols(front);
        let sb = line_symbols(back);
        assert(line_symbols(ls1).to_multiset() =~= line_symbols(p).to_multiset().add(sl.to_multiset()));
        assert(line_symbols(ls2).to_multiset() =~= sf.to_multiset().add(sl.to_multiset()).add(sb.to_multiset()));
        assert(line_symbols(r).to_multiset() =~= sf.to_multiset().add(sb.to_multiset()));
    }
}

proof fn lemma_starting_at_counts(s: Seq<SymbolRange>, k: u64, v: SymbolRange)
    ensures
        starting_at(s, k).to_multiset().count(v) == if v.0 == k {
            s.to_multiset().count(v)
        } else {
            0
        },
    decreases s.len(),
{
    broadcast use vstd::multiset::group_multiset_axioms, vstd::seq_lib::to_multiset_build,
        vstd::seq_lib::to_multiset_len;

    if s.len() == 0 {
        assert(s.to_multiset().len() == 0);
        assert(s.to_multiset() =~= Multiset::<SymbolRange>::empty());
        assert(starting_at(s, k).to_multiset().len() == 0);
        assert(starting_at(s, k).to_multiset() =~= Multiset::<SymbolRange>::empty());
    } else {
        lemma_starting_at_counts(s.drop_last(), k, v);
        assert(s =~= s.drop_last().push(s.last()));
    }
}

proof fn lemma_starting_at_distinct(s: Seq<SymbolRange>, k: u64)
    requires
        forall|i: int, j: int| 0 <= i < j < s.len() ==> #[trigger] s[i].0 != #[trigger] s[j].0,
    ensures
        starting_at(s, k).len() <= 1,
    decreases s.len(),
{
    if s.len() > 0 {
        let p = s.drop_last();
        assert forall|i: int, j: int| 0 <= i < j < p.len() implies #[trigger] p[i].0
            != #[trigger] p[j].0 by {
            assert(p[i] == s[i] && p[j] == s[j]);
        }
        lemma_starting_at_distinct(p, k);
        if s.last().0 == k {
            assert forall|i: int| 0 <= i < p.len() implies #[trigger] p[i].0 != k by {
                assert(p[i] == s[i]);
                assert(s[i].0 != s[s.len() - 1].0);
            }
            lemma_starting_at_witness(p, k);
        }
    }
}

/// The order of the lines does not matter where no two symbol lines share a
/// start: a map whose lines are a reordering of another's parses to the same
/// table.
pub proof fn law_line_order_irrelevant(ls1: Seq<Seq<char>>, ls2: Seq<Seq<char>>)
    requires
        ls1.to_multiset() == ls2.to_multiset(),
        forall|i: int, j: int|
            0 <= i < j < line_symbols(ls1).len() ==> #[trigger] line_symbols(ls1)[i].0
                != #[trigger] line_symbols(ls1)[j].0,
    ensures
        sort_by_start(line_symbols(ls1)) == sort_by_start(line_symbols(ls2)),
{
    broadcast use vstd::multiset::group_multiset_axioms, vstd::seq_lib::to_multiset_len,
        vstd::seq_lib::to_multiset_contains;

    let s1 = line_symbols(ls1);
    let s2 = line_symbols(ls2);
    lemma_line_symbols_multiset(ls1, ls2);
    assert forall|k: u64| #[trigger] starting_at(sort_by_start(s1), k) == starting_at(
        sort_by_start(s2),
        k,
    ) by {
        law_sort_is_stable(s1, k);
        law_sort_is_stable(s2, k);
        let a = starting_at(s1, k);
        let b = starting_at(s2, k);
        assert forall|v: SymbolRange| a.to_multiset().count(v) == b.to_multiset().count(v) by {
            lemma_starting_at_counts(s1, k, v);
            lemma_starting_at_counts(s2, k, v);
        }
        assert(a.to_multiset() =~= b.to_multiset());
        lemma_starting_at_distinct(s1, k);
        vstd::seq_lib::to_multiset_len(a);
        vstd::seq_lib::to_multiset_len(b);
        assert(a.len() == b.len());
        if a.len() == 1 {
            assert(a.to_multiset().count(a[0]) > 0);
            assert(b.contains(a[0]));
            assert(a =~= b);
        } else {
            assert(a =~= b);
        }
    }
    lemma_sort_sorted(s1);
    lemma_sort_sorted(s2);
    lemma_sorted_unique(sort_by_start(s1), sort_by_start(s2));
}

/// A line written as `format!("{:x} {:x} {}", start, size, name)`, with a
/// name that does not start with white space, parses back to its fields.
pub proof fn law_map_line_round_trip(start: u64, size: u64, name: Seq<char>)
    requires
        name.len() > 0,
        !is_white_space(name[0]),
    ensures
        map_line_fields(
            lower_hex(start as nat) + seq![' '] + lower_hex(size as nat) + seq![' '] + name,
        ) == Some((start, size, name)),
{
    law_white_space_chars(' ');
    law_map_line_any_separators(start, size, name, ' ', ' ');
}

/// The fields of a line may be separated by any white space (a tab, a
/// no-break space, ...): `start`, a white-space character, `size`, another,
/// and a name that does not start with white space parse back to
/// `(start, size, name)`.
pub proof fn law_map_line_any_separators(
    start: u64,
    size: u64,
    name: Seq<char>,
    sep1: char,
    sep2: char,
)
    requires
        name.len() > 0,
        !is_white_space(name[0]),
        is_white_space(sep1),
        is_white_space(sep2),
    ensures
        map_line_fields(
            lower_hex(start as nat) + seq![sep1] + lower_hex(size as nat) + seq![sep2] + name,
        ) == Some((start, size, name)),
{
    let hs = lower_hex(start as nat);
    let hz = lower_hex(size as nat);
    let l = hs + seq![sep1] + hz + seq![sep2] + name;
    lemma_lower_hex(start as nat);
    lemma_lower_hex(size as nat);
    law_lower_hex_parses_back(start);
    law_lower_hex_parses_back(size);
    let rest = hz + seq![sep2] + name;
    assert(l =~= hs + (seq![sep1] + rest));
    lemma_white_space_index_concat(hs, seq![sep1] + rest);
    let i = hs.len() as int;
    assert(l.take(i) =~= hs);
    assert(l.skip(i + 1) =~= rest);
    assert(rest =~= hz + (seq![sep2] + name));
    lemma_white_space_index_concat(hz, seq![sep2] + name);
    let j = hz.len() as int;
    assert(rest.take(j) =~= hz);
    assert(rest.skip(j + 1) =~= name);
    assert(trim_start(name) == name);
}

/// The symbol of such a line covers `[start, start + size)`, where that end
/// fits in 64 bits.
pub proof fn law_line_symbol_range(
    start: u64,
    size: u64,
    name: Seq<char>,
    sep1: char,
    sep2: char,
)
    requires
        name.len() > 0,
        !is_white_space(name[0]),
        is_white_space(sep1),
        is_white_space(sep2),
        start + size <= u64::MAX,
    ensures
        line_fits(
            lower_hex(start as nat) + seq![sep1] + lower_hex(size as nat) + seq![sep2] + name,
        ),
        line_symbol(
            lower_hex(start as nat) + seq![sep1] + lower_hex(size as nat) + seq![sep2] + name,
        ) == Some((start, (start + size) as u64, name)),
{
    law_map_line_any_separators(start, size, name, sep1, sep2);
}

/// A line needs two white-space characters to hold three fields: one with
/// fewer describes nothing. The name of a line that describes a symbol is
/// not empty, does not start with white space, and ends the line.
pub proof fn law_map_line_shape(l: Seq<char>)
    ensures
        (forall|i: int, j: int|
            0 <= i < j < l.len() ==> !(is_white_space(#[trigger] l[i]) && is_white_space(
                #[trigger] l[j],
            ))) ==> map_line_fields(l) is None,
        map_line_fields(l) matches Some((start, size, name)) ==> {
            &&& name.len() > 0
            &&& !is_white_space(name[0])
            &&& name == l.skip(l.len() - name.len())
        },
{
    law_white_space_index(l);
    let i = white_space_index(l) as int;
    let rest = l.skip(i + 1);
    law_white_space_index(rest);
    let j = white_space_index(rest) as int;
    let after = rest.skip(j + 1);
    law_trim_start(after);
    if i < l.len() && j < rest.len() {
        assert(rest[j] == l[i + 1 + j]);
        assert(is_white_space(l[i]) && is_white_space(l[i + 1 + j]));
        let name = trim_start(after);
        assert(after =~= l.skip(i + 1 + j + 1));
        assert(name =~= l.skip(l.len() - name.len()));
    }
}

/// A table that holds no symbol resolves no address.
pub proof fn law_empty_resolves_nothing(t: Seq<SymbolRange>, ip: u64)
    requires
        t.len() == 0,
    ensures
        resolve_in(t, ip) is None,
{
}

/// Sorting neither drops nor adds symbols: the table holds each symbol line
/// of the map exactly as often as the map does.
pub proof fn law_sort_keeps_symbols(s: Seq<SymbolRange>)
    ensures
        sort_by_start(s).to_multiset() == s.to_multiset(),
    decreases s.len(),
{
    broadcast use vstd::seq_lib::to_multiset_insert, vstd::seq_lib::to_multiset_build;

    if s.len() > 0 {
        let p = s.drop_last();
        law_sort_keeps_symbols(p);
        let t = sort_by_start(p);
        lemma_count_bound(t, s.last().0);
        assert(s == p.push(s.last()));
    } else {
        assert(sort_by_start(s) == s);
    }
}

} // verus!

//! Disk throughput from `/proc/diskstats`.
use vstd::prelude::*;
use std::time::Instant;
use crate::text::{
    chars_of,
    lines,
    parse_or_zero,
    parse_u64_chars,
    split_lines,
    split_words,
    starts_with,
    starts_with_str,
    views,
    words,
};
use crate::collectors::order::{
    copy_chars,
    lemma_lex_asymmetric,
    lemma_lex_irreflexive,
    lemma_lex_total,
    lemma_lex_transitive,
    lex_less,
    lex_lt,
    same_chars,
};

verus! {

/// Whether a device is left out: RAM disks and loop devices.
pub open spec fn is_ignored_device(name: Seq<char>) -> bool {
    starts_with(name, seq!['r', 'a', 'm']) || starts_with(name, seq!['l', 'o', 'o', 'p'])
}

/// The device name and the sectors read and written that a `/proc/diskstats` line
/// reports: its third word, and its sixth and tenth words read as numbers (0 when
/// they are none). Lines of fewer than ten words and ignored devices report none.
pub open spec fn disk_entry(line: Seq<char>) -> Option<(Seq<char>, (u64, u64))> {
    let w = words(line);
    if w.len() < 10 || is_ignored_device(w[2]) {
        None
    } else {
        Some((w[2], (parse_or_zero(w[5]), parse_or_zero(w[9]))))
    }
}

/// The sectors read and written per device that the lines `ls` report; a later
/// line overrides an earlier one for the same device.
pub open spec fn disk_map(ls: Seq<Seq<char>>) -> Map<Seq<char>, (u64, u64)>
    decreases ls.len(),
{
    if ls.len() == 0 {
        Map::empty()
    } else {
        let m = disk_map(ls.drop_last());
        match disk_entry(ls.last()) {
            Some((name, v)) => m.insert(name, v),
            None => m,
        }
    }
}

/// Whether the names of `rows` are in strictly increasing order.
pub open spec fn sorted_names(rows: Seq<(Seq<char>, u64, u64)>) -> bool {
    forall|i: int, j: int| 0 <= i < j < rows.len() ==> lex_lt(#[trigger] rows[i].0, #[trigger] rows[j].0)
}

/// Whether `rows` lists the entries of `m` in order of name.
pub open spec fn lists(rows: Seq<(Seq<char>, u64, u64)>, m: Map<Seq<char>, (u64, u64)>) -> bool {
    &&& sorted_names(rows)
    &&& forall|i: int|
        0 <= i < rows.len() ==> m.contains_key(#[trigger] rows[i].0) && m[rows[i].0] == (
            rows[i].1,
            rows[i].2,
        )
    &&& forall|k: Seq<char>| m.contains_key(k) ==> exists|i: int| 0 <= i < rows.len() && #[trigger] rows[i].0 == k
}

/// The first row of `rows` named `name`, as `(read, written)`.
pub open spec fn find(rows: Seq<(Seq<char>, u64, u64)>, name: Seq<char>) -> Option<(u64, u64)>
    decreases rows.len(),
{
    if rows.len() == 0 {
        None
    } else if rows[0].0 == name {
        Some((rows[0].1, rows[0].2))
    } else {
        find(rows.drop_first(), name)
    }
}

/// A map has one listing in order of name: two sequences that both list `m` are equal.
pub proof fn lemma_listing_unique(
    r1: Seq<(Seq<char>, u64, u64)>,
    r2: Seq<(Seq<char>, u64, u64)>,
    m: Map<Seq<char>, (u64, u64)>,
)
    requires
        lists(r1, m),
        lists(r2, m),
    ensures
        r1 == r2,
    decreases r1.len(),
{
    if r1.len() == 0 {
        if r2.len() > 0 {
            assert(m.contains_key(r2[0].0));
        }
        assert(r1 =~= r2);
    } else {
        let k1 = r1[0].0;
        assert(m.contains_key(k1));
        let j = choose|j: int| 0 <= j < r2.len() && #[trigger] r2[j].0 == k1;
        let k2 = r2[0].0;
        assert(m.contains_key(k2));
        let jj = choose|jj: int| 0 <= jj < r1.len() && #[trigger] r1[jj].0 == k2;
        if j > 0 {
            assert(lex_lt(r2[0].0, r2[j].0));
            if jj > 0 {
                assert(lex_lt(r1[0].0, r1[jj].0));
                lemma_lex_asymmetric(k2, k1);
            } else {
                lemma_lex_irreflexive(k1);
            }
        }
        assert(j == 0);
        let m2 = m.remove(k1);
        let t1 = r1.drop_first();
        let t2 = r2.drop_first();
        assert forall|i: int| 0 <= i < t1.len() implies m2.contains_key(#[trigger] t1[i].0) && m2[t1[i].0]
            == (t1[i].1, t1[i].2) by {
            assert(t1[i] == r1[i + 1]);
            assert(lex_lt(r1[0].0, r1[i + 1].0));
            lemma_lex_irreflexive(k1);
        }
        assert forall|k: Seq<char>| m2.contains_key(k) implies exists|i: int|
            0 <= i < t1.len() && #[trigger] t1[i].0 == k by {
            let i = choose|i: int| 0 <= i < r1.len() && #[trigger] r1[i].0 == k;
            assert(t1[i - 1].0 == k);
        }
        assert forall|i: int| 0 <= i < t2.len() implies m2.contains_key(#[trigger] t2[i].0) && m2[t2[i].0]
            == (t2[i].1, t2[i].2) by {
            assert(t2[i] == r2[i + 1]);
            assert(lex_lt(r2[0].0, r2[i + 1].0));
            lemma_lex_irreflexive(k1);
        }
        assert forall|k: Seq<char>| m2.contains_key(k) implies exists|i: int|
            0 <= i < t2.len() && #[trigger] t2[i].0 == k by {
            let i = choose|i: int| 0 <= i < r2.len() && #[trigger] r2[i].0 == k;
            assert(t2[i - 1].0 == k);
        }
        assert(sorted_names(t1)) by {
            assert forall|a: int, b: int| 0 <= a < b < t1.len() implies lex_lt(
                #[trigger] t1[a].0,
                #[trigger] t1[b].0,
            ) by {
                assert(lex_lt(r1[a + 1].0, r1[b + 1].0));
            }
        }
        assert(sorted_names(t2)) by {
            assert forall|a: int, b: int| 0 <= a < b < t2.len() implies lex_lt(
                #[trigger] t2[a].0,
                #[trigger] t2[b].0,
            ) by {
                assert(lex_lt(r2[a + 1].0, r2[b + 1].0));
            }
        }
        lemma_listing_unique(t1, t2, m2);
        assert(r1[0] == r2[0]);
        assert(r1 =~= seq![r1[0]] + t1);
        assert(r2 =~= seq![r2[0]] + t2);
    }
}

/// In a list sorted by name, the row found for the name of row `i` is row `i`.
pub proof fn lemma_find_sorted(rows: Seq<(Seq<char>, u64, u64)>, i: int)
    requires
        sorted_names(rows),
        0 <= i < rows.len(),
    ensures
        find(rows, rows[i].0) == Some((rows[i].1, rows[i].2)),
    decreases i,
{
    if i > 0 {
        assert(lex_lt(rows[0].0, rows[i].0));
        lemma_lex_irreflexive(rows[i].0);
        let t = rows.drop_first();
        assert(sorted_names(t)) by {
            assert forall|a: int, b: int| 0 <= a < b < t.len() implies lex_lt(
                #[trigger] t[a].0,
                #[trigger] t[b].0,
            ) by {
                assert(lex_lt(rows[a + 1].0, rows[b + 1].0));
            }
        }
        lemma_find_sorted(t, i - 1);
        assert(t[i - 1] == rows[i]);
    }
}

/// A reading equal to the previous one shows no sectors moved on any device.
pub proof fn lemma_unchanged_disks_give_zero_deltas(rows: Seq<(Seq<char>, u64, u64)>)
    requires
        sorted_names(rows),
    ensures
        disk_deltas(rows, rows) == rows.map_values(|r: (Seq<char>, u64, u64)| (r.0, 0u64, 0u64)),
{
    assert forall|i: int| 0 <= i < rows.len() implies #[trigger] disk_deltas(rows, rows)[i] == (
        rows[i].0,
        0u64,
        0u64,
    ) by {
        lemma_find_sorted(rows, i);
    }
    assert(disk_deltas(rows, rows) =~= rows.map_values(
        |r: (Seq<char>, u64, u64)| (r.0, 0u64, 0u64),
    ));
}

/// A device is left out exactly when its name begins with `ram` or with `loop`.
pub proof fn lemma_ignored_devices(name: Seq<char>)
    ensures
        is_ignored_device(name) <==> {
            ||| name.len() >= 3 && name[0] == 'r' && name[1] == 'a' && name[2] == 'm'
            ||| name.len() >= 4 && name[0] == 'l' && name[1] == 'o' && name[2] == 'o' && name[3]
                == 'p'
        },
{
    if name.len() >= 3 && name[0] == 'r' && name[1] == 'a' && name[2] == 'm' {
        assert(name.subrange(0, 3) =~= seq!['r', 'a', 'm']);
    }
    if name.len() >= 4 && name[0] == 'l' && name[1] == 'o' && name[2] == 'o' && name[3] == 'p' {
        assert(name.subrange(0, 4) =~= seq!['l', 'o', 'o', 'p']);
    }
    if name.len() >= 3 && name.subrange(0, 3) == seq!['r', 'a', 'm'] {
        assert(name.subrange(0, 3)[0] == name[0]);
        assert(name.subrange(0, 3)[1] == name[1]);
        assert(name.subrange(0, 3)[2] == name[2]);
    }
    if name.len() >= 4 && name.subrange(0, 4) == seq!['l', 'o', 'o', 'p'] {
        assert(name.subrange(0, 4)[0] == name[0]);
        assert(name.subrange(0, 4)[1] == name[1]);
        assert(name.subrange(0, 4)[2] == name[2]);
        assert(name.subrange(0, 4)[3] == name[3]);
    }
}

/// Whether the line `line` reports the device `k`: it has at least ten words, its
/// third word is `k`, and `k` is no RAM disk or loop device.
pub open spec fn reports(line: Seq<char>, k: Seq<char>) -> bool {
    &&& words(line).len() >= 10
    &&& words(line)[2] == k
    &&& !is_ignored_device(k)
}

/// The devices of a `/proc/diskstats` text are exactly those that some line
/// reports; each has the sectors read and written (sixth and tenth words) of the
/// last line that reports it.
pub proof fn lemma_disk_map_devices(ls: Seq<Seq<char>>, k: Seq<char>)
    ensures
        disk_map(ls).contains_key(k) <==> exists|i: int| 0 <= i < ls.len() && reports(#[trigger] ls[i], k),
        forall|i: int|
            0 <= i < ls.len() && reports(#[trigger] ls[i], k) && (forall|j: int|
                i < j < ls.len() ==> !reports(#[trigger] ls[j], k)) ==> disk_map(ls)[k] == (
                parse_or_zero(words(ls[i])[5]),
                parse_or_zero(words(ls[i])[9]),
            ),
    decreases ls.len(),
{
    if ls.len() > 0 {
        let t = ls.drop_last();
        let last = ls.len() - 1;
        lemma_disk_map_devices(t, k);
        assert forall|i: int| 0 <= i < t.len() implies t[i] == ls[i] by {}
        if disk_map(ls).contains_key(k) {
            if !reports(ls[last], k) {
                let i = choose|i: int| 0 <= i < t.len() && reports(#[trigger] t[i], k);
                assert(reports(ls[i], k));
            }
        }
        if exists|i: int| 0 <= i < ls.len() && reports(#[trigger] ls[i], k) {
            let i = choose|i: int| 0 <= i < ls.len() && reports(#[trigger] ls[i], k);
            if i < last {
                assert(reports(t[i], k));
            }
        }
        assert forall|i: int|
            0 <= i < ls.len() && reports(#[trigger] ls[i], k) && (forall|j: int|
                i < j < ls.len() ==> !reports(#[trigger] ls[j], k)) implies disk_map(ls)[k] == (
            parse_or_zero(words(ls[i])[5]),
            parse_or_zero(words(ls[i])[9]),
        ) by {
            if i < last {
                assert(!reports(ls[last], k));
                assert(reports(t[i], k));
                assert forall|j: int| i < j < t.len() implies !reports(#[trigger] t[j], k) by {
                    assert(!reports(ls[j], k));
                }
            }
        }
    }
}

/// Devices are matched by name: a device of the current reading that the previous
/// reading also holds counts from that device's previous sectors (down to 0 where
/// they went back), and a device the previous reading lacks counts 0.
pub proof fn lemma_deltas_match_by_name(
    prev: Seq<(Seq<char>, u64, u64)>,
    cur: Seq<(Seq<char>, u64, u64)>,
    i: int,
)
    requires
        sorted_names(prev),
        0 <= i < cur.len(),
    ensures
        disk_deltas(prev, cur).len() == cur.len(),
        forall|j: int|
            0 <= j < prev.len() && #[trigger] prev[j].0 == cur[i].0 ==> disk_deltas(prev, cur)[i] == (
                cur[i].0,
                if cur[i].1 >= prev[j].1 {
                    (cur[i].1 - prev[j].1) as u64
                } else {
                    0u64
                },
                if cur[i].2 >= prev[j].2 {
                    (cur[i].2 - prev[j].2) as u64
                } else {
                    0u64
                },
            ),
        (forall|j: int| 0 <= j < prev.len() ==> #[trigger] prev[j].0 != cur[i].0) ==> disk_deltas(
            prev,
            cur,
        )[i] == (cur[i].0, 0u64, 0u64),
{
    assert forall|j: int| 0 <= j < prev.len() && #[trigger] prev[j].0 == cur[i].0 implies disk_deltas(
        prev,
        cur,
    )[i] == (
        cur[i].0,
        if cur[i].1 >= prev[j].1 {
            (cur[i].1 - prev[j].1) as u64
        } else {
            0u64
        },
        if cur[i].2 >= prev[j].2 {
            (cur[i].2 - prev[j].2) as u64
        } else {
            0u64
        },
    ) by {
        lemma_find_sorted(prev, j);
    }
    if forall|j: int| 0 <= j < prev.len() ==> #[trigger] prev[j].0 != cur[i].0 {
        lemma_find_absent(prev, cur[i].0);
    }
}

/// No row is found for a name that no row has.
pub proof fn lemma_find_absent(rows: Seq<(Seq<char>, u64, u64)>, name: Seq<char>)
    requires
        forall|j: int| 0 <= j < rows.len() ==> #[trigger] rows[j].0 != name,
    ensures
        find(rows, name) is None,
    decreases rows.len(),
{
    if rows.len() > 0 {
        let t = rows.drop_first();
        assert forall|j: int| 0 <= j < t.len() implies #[trigger] t[j].0 != name by {
            assert(t[j] == rows[j + 1]);
        }
        lemma_find_absent(t, name);
    }
}

/// The sectors read and written by one device.
pub struct DiskStat {
    pub name: Vec<char>,
    pub read: u64,
    pub written: u64,
}

pub open spec fn stat_rows(v: Seq<DiskStat>) -> Seq<(Seq<char>, u64, u64)> {
    v.map_values(|e: DiskStat| (e.name@, e.read, e.written))
}

/// The devices of one `/proc/diskstats` reading, sorted by name.
pub struct DiskTable {
    entries: Vec<DiskStat>,
}

impl DiskTable {
    #[verifier::type_invariant]
    spec fn inv(&self) -> bool {
        sorted_names(stat_rows(self.entries@))
    }

    /// `(name, read, written)` per device, in order of name.
    pub closed spec fn rows(&self) -> Seq<(Seq<char>, u64, u64)> {
        stat_rows(self.entries@)
    }

    /// A table of no device.
    pub fn empty() -> (t: Self)
        ensures
            t.rows() == Seq::<(Seq<char>, u64, u64)>::empty(),
    {
        let t = DiskTable { entries: Vec::new() };
        assert(t.rows() =~= Seq::<(Seq<char>, u64, u64)>::empty());
        t
    }

    /// The devices, in order of name.
    pub fn entries(&self) -> (r: &Vec<DiskStat>)
        ensures
            stat_rows(r@) == self.rows(),
            sorted_names(self.rows()),
    {
        proof {
            use_type_invariant(self);
        }
        &self.entries
    }

    /// The number of devices.
    pub fn len(&self) -> (r: usize)
        ensures
            r == self.rows().len(),
    {
        self.entries.len()
    }

    /// Whether the table holds no device.
    pub fn is_empty(&self) -> (r: bool)
        ensures
            r == (self.rows().len() == 0),
    {
        self.entries.len() == 0
    }
}

/// Enters `name` with `read` and `written` into `entries`, which list `m`, so that
/// they list `m` with that entry.
fn enter(
    entries: &mut Vec<DiskStat>,
    name: Vec<char>,
    read: u64,
    written: u64,
    Ghost(m): Ghost<Map<Seq<char>, (u64, u64)>>,
)
    requires
        lists(stat_rows(old(entries)@), m),
    ensures
        lists(stat_rows(final(entries)@), m.insert(name@, (read, written))),
{
    let ghost old_rows = stat_rows(entries@);
    let ghost n = name@;
    let mut p: usize = 0;
    while p < entries.len() && lex_less(&entries[p].name, &name)
        invariant
            p <= entries.len(),
            stat_rows(entries@) == old_rows,
            n == name@,
            forall|q: int| 0 <= q < p ==> lex_lt(#[trigger] old_rows[q].0, n),
        decreases entries.len() - p,
    {
        assert(old_rows[p as int].0 == entries@[p as int].name@);
        p += 1;
    }
    let ghost new_m = m.insert(n, (read, written));
    if p < entries.len() && same_chars(&entries[p].name, &name) {
        assert(old_rows[p as int].0 == n);
        entries.set(p, DiskStat { name, read, written });
        let ghost rows = stat_rows(entries@);
        proof {
            assert(rows =~= old_rows.update(p as int, (n, read, written)));
            assert forall|i: int| 0 <= i < rows.len() implies new_m.contains_key(
                #[trigger] rows[i].0,
            ) && new_m[rows[i].0] == (rows[i].1, rows[i].2) by {
                if i != p {
                    assert(rows[i] == old_rows[i]);
                    if i < p {
                        assert(lex_lt(old_rows[i].0, old_rows[p as int].0));
                    } else {
                        assert(lex_lt(old_rows[p as int].0, old_rows[i].0));
                    }
                    lemma_lex_irreflexive(n);
                }
            }
            assert forall|k: Seq<char>| new_m.contains_key(k) implies exists|i: int|
                0 <= i < rows.len() && #[trigger] rows[i].0 == k by {
                if k == n {
                    assert(rows[p as int].0 == k);
                } else {
                    let i = choose|i: int| 0 <= i < old_rows.len() && #[trigger] old_rows[i].0 == k;
                    assert(rows[i].0 == k);
                }
            }
        }
    } else {
        proof {
            if p < entries.len() {
                assert(old_rows[p as int].0 == entries@[p as int].name@);
                lemma_lex_total(old_rows[p as int].0, n);
            }
        }
        entries.insert(p, DiskStat { name, read, written });
        let ghost rows = stat_rows(entries@);
        proof {
            assert(rows =~= old_rows.insert(p as int, (n, read, written)));
            assert forall|i: int| 0 <= i < old_rows.len() implies #[trigger] old_rows[i].0 != n by {
                if i < p {
                    lemma_lex_irreflexive(n);
                } else {
                    if i > p {
                        lemma_lex_transitive(n, old_rows[p as int].0, old_rows[i].0);
                    }
                    lemma_lex_irreflexive(n);
                }
            }
            assert forall|i: int, j: int| 0 <= i < j < rows.len() implies lex_lt(
                #[trigger] rows[i].0,
                #[trigger] rows[j].0,
            ) by {
                if j < p {
                    assert(lex_lt(old_rows[i].0, old_rows[j].0));
                } else if j == p {
                    assert(lex_lt(old_rows[i].0, n));
                } else if i == p {
                    if j - 1 > p {
                        lemma_lex_transitive(n, old_rows[p as int].0, old_rows[j - 1].0);
                    }
                } else if i < p {
                    assert(lex_lt(old_rows[i].0, old_rows[j - 1].0));
                } else {
                    assert(lex_lt(old_rows[i - 1].0, old_rows[j - 1].0));
                }
            }
            assert forall|i: int| 0 <= i < rows.len() implies new_m.contains_key(
                #[trigger] rows[i].0,
            ) && new_m[rows[i].0] == (rows[i].1, rows[i].2) by {
                if i < p {
                    assert(rows[i] == old_rows[i]);
                } else if i > p {
                    assert(rows[i] == old_rows[i - 1]);
                }
            }
            assert forall|k: Seq<char>| new_m.contains_key(k) implies exists|i: int|
                0 <= i < rows.len() && #[trigger] rows[i].0 == k by {
                if k == n {
                    assert(rows[p as int].0 == k);
                } else {
                    let i = choose|i: int| 0 <= i < old_rows.len() && #[trigger] old_rows[i].0 == k;
                    if i < p {
                        assert(rows[i].0 == k);
                    } else {
                        assert(rows[i + 1].0 == k);
                    }
                }
            }
        }
    }
}

/// The sectors read and written by one device since the previous reading.
pub struct DiskDelta {
    pub name: Vec<char>,
    pub read: u64,
    pub written: u64,
}

pub open spec fn delta_rows(v: Seq<DiskDelta>) -> Seq<(Seq<char>, u64, u64)> {
    v.map_values(|e: DiskDelta| (e.name@, e.read, e.written))
}

/// Per device of `cur`, in its order: the sectors read and written since `prev`,
/// saturating at 0; a device that `prev` lacks counts from its own reading, so 0.
pub open spec fn disk_deltas(
    prev: Seq<(Seq<char>, u64, u64)>,
    cur: Seq<(Seq<char>, u64, u64)>,
) -> Seq<(Seq<char>, u64, u64)> {
    Seq::new(
        cur.len(),
        |i: int|
            {
                let (p_read, p_written) = match find(prev, cur[i].0) {
                    Some(p) => p,
                    None => (cur[i].1, cur[i].2),
                };
                (cur[i].0, cur[i].1.saturating_sub(p_read), cur[i].2.saturating_sub(p_written))
            },
    )
}

/// `names` with a `','` between each two (`join(",")`).
pub open spec fn joined(names: Seq<Seq<char>>) -> Seq<char>
    decreases names.len(),
{
    if names.len() == 0 {
        Seq::empty()
    } else if names.len() == 1 {
        names[0]
    } else {
        joined(names.drop_last()) + seq![','] + names.last()
    }
}

/// The names of `devices`, in order.
pub open spec fn delta_names(devices: Seq<DiskDelta>) -> Seq<Seq<char>> {
    devices.map_values(|d: DiskDelta| d.name@)
}

/// The label of a disk sample: the device names, separated by `','`.
pub fn device_label(devices: &Vec<DiskDelta>) -> (r: Vec<char>)
    ensures
        r@ == joined(delta_names(devices@)),
{
    let ghost names = delta_names(devices@);
    let mut r: Vec<char> = Vec::new();
    let mut i: usize = 0;
    while i < devices.len()
        invariant
            i <= devices.len(),
            names == delta_names(devices@),
            r@ == joined(names.take(i as int)),
        decreases devices.len() - i,
    {
        let ghost before = r@;
        if i > 0 {
            r.push(',');
        }
        let name = &devices[i].name;
        let mut j: usize = 0;
        while j < name.len()
            invariant
                j <= name.len(),
                r@ == (if i > 0 {
                    before + seq![',']
                } else {
                    before
                }) + name@.take(j as int),
            decreases name.len() - j,
        {
            r.push(name[j]);
            assert(name@.take(j + 1) =~= name@.take(j as int).push(name@[j as int]));
            j += 1;
        }
        proof {
            assert(name@.take(j as int) =~= name@);
            assert(names[i as int] == name@);
            assert(names.take(i + 1).drop_last() =~= names.take(i as int));
            if i == 0 {
                assert(before =~= Seq::<char>::empty());
                assert(r@ =~= joined(names.take(1)));
            } else {
                assert(r@ =~= joined(names.take(i + 1)));
            }
        }
        i += 1;
    }
    assert(names.take(i as int) =~= names);
    r
}

/// What one step of the disk collector yields.
pub enum DiskUpdate {
    /// The first reading: there is nothing to compare it with yet.
    Baseline,
    /// Per device, the sectors moved since the previous reading, which was taken at
    /// `since`.
    Rates { since: Option<Instant>, devices: Vec<DiskDelta> },
}

/// Turns successive `/proc/diskstats` readings into per-device sector counts.
pub struct DiskCollector {
    prev_sectors: DiskTable,
    last_time: Option<Instant>,
}

impl DiskCollector {
    /// The previous reading, in order of name.
    pub closed spec fn prev_rows(&self) -> Seq<(Seq<char>, u64, u64)> {
        self.prev_sectors.rows()
    }

    /// When the previous reading was taken.
    pub closed spec fn last_time(&self) -> Option<Instant> {
        self.last_time
    }

    /// A collector with no previous reading.
    pub fn new() -> (c: Self)
        ensures
            c.prev_rows() == Seq::<(Seq<char>, u64, u64)>::empty(),
            c.last_time() is None,
    {
        DiskCollector { prev_sectors: DiskTable::empty(), last_time: None }
    }

    /// The devices of the `/proc/diskstats` text `text` with the sectors they read
    /// and wrote, in order of name.
    pub fn parse_diskstats(text: &str) -> (t: DiskTable)
        ensures
            lists(t.rows(), disk_map(lines(text@))),
    {
        let chars = chars_of(text);
        let ls = split_lines(&chars);
        let ghost l = lines(text@);
        let mut entries: Vec<DiskStat> = Vec::new();
        let mut i: usize = 0;
        proof {
            assert(lists(stat_rows(entries@), disk_map(l.take(0))));
        }
        while i < ls.len()
            invariant
                i <= ls.len(),
                views(ls@) == l,
                l == lines(text@),
                lists(stat_rows(entries@), disk_map(l.take(i as int))),
            decreases ls.len() - i,
        {
            proof {
                assert(views(ls@)[i as int] == ls@[i as int]@);
                assert(l.take(i + 1).drop_last() =~= l.take(i as int));
                reveal_strlit("ram");
                reveal_strlit("loop");
                assert("ram"@ =~= seq!['r', 'a', 'm']);
                assert("loop"@ =~= seq!['l', 'o', 'o', 'p']);
            }
            let w = split_words(&ls[i]);
            if w.len() >= 10 {
                proof {
                    assert(views(w@)[2] == w@[2]@);
                    assert(views(w@)[5] == w@[5]@);
                    assert(views(w@)[9] == w@[9]@);
                }
                if !starts_with_str(&w[2], "ram") && !starts_with_str(&w[2], "loop") {
                    let read = match parse_u64_chars(&w[5]) {
                        Some(v) => v,
                        None => 0,
                    };
                    let written = match parse_u64_chars(&w[9]) {
                        Some(v) => v,
                        None => 0,
                    };
                    let name = copy_chars(&w[2]);
                    enter(&mut entries, name, read, written, Ghost(disk_map(l.take(i as int))));
                }
            }
            i += 1;
        }
        assert(l.take(i as int) =~= l);
        DiskTable { entries }
    }

    /// The previous reading's `(read, written)` for the device `name`.
    fn previous(&self, name: &Vec<char>) -> (r: Option<(u64, u64)>)
        ensures
            r == find(self.prev_rows(), name@),
    {
        let entries = self.prev_sectors.entries();
        let ghost rows = self.prev_rows();
        let mut i: usize = 0;
        assert(rows.skip(0) =~= rows);
        while i < entries.len()
            invariant
                i <= entries.len(),
                stat_rows(entries@) == rows,
                rows == self.prev_rows(),
                find(rows, name@) == find(rows.skip(i as int), name@),
            decreases entries.len() - i,
        {
            assert(rows.skip(i as int)[0] == rows[i as int]);
            assert(rows[i as int] == (entries@[i as int].name@, entries@[i as int].read, entries@[i as int].written));
            if same_chars(&entries[i].name, name) {
                return Some((entries[i].read, entries[i].written));
            }
            assert(rows.skip(i as int).drop_first() =~= rows.skip(i + 1));
            i += 1;
        }
        None
    }

    /// Records `current`, taken at `now`, as the previous reading. The first reading
    /// yields `Baseline`; every later one the sectors each device of `current` moved
    /// since the previous reading, in order of name.
    pub fn advance(&mut self, current: DiskTable, now: Instant) -> (r: DiskUpdate)
        ensures
            final(self).prev_rows() == current.rows(),
            final(self).last_time() == Some(now),
            match r {
                DiskUpdate::Baseline => old(self).prev_rows().len() == 0,
                DiskUpdate::Rates { since, devices } => {
                    &&& old(self).prev_rows().len() > 0
                    &&& since == old(self).last_time()
                    &&& delta_rows(devices@) == disk_deltas(old(self).prev_rows(), current.rows())
                },
            },
    {
        if self.prev_sectors.is_empty() {
            self.prev_sectors = current;
            self.last_time = Some(now);
            return DiskUpdate::Baseline;
        }
        let cur = current.entries();
        let ghost cur_rows = current.rows();
        let ghost prev_rows = self.prev_rows();
        let mut devices: Vec<DiskDelta> = Vec::new();
        let mut i: usize = 0;
        while i < cur.len()
            invariant
                i <= cur.len(),
                stat_rows(cur@) == cur_rows,
                prev_rows == self.prev_rows(),
                delta_rows(devices@) == disk_deltas(prev_rows, cur_rows).take(i as int),
            decreases cur.len() - i,
        {
            let e = &cur[i];
            assert(cur_rows[i as int] == (e.name@, e.read, e.written));
            let (p_read, p_written) = match self.previous(&e.name) {
                Some(p) => p,
                None => (e.read, e.written),
            };
            let name = copy_chars(&e.name);
            let ghost before = devices@;
            let d = DiskDelta {
                name,
                read: e.read.saturating_sub(p_read),
                written: e.written.saturating_sub(p_written),
            };
            assert(disk_deltas(prev_rows, cur_rows)[i as int] == (d.name@, d.read, d.written));
            devices.push(d);
            assert(devices@ == before.push(d));
            assert(delta_rows(devices@) =~= delta_rows(before).push((d.name@, d.read, d.written)));
            assert(delta_rows(devices@) =~= disk_deltas(prev_rows, cur_rows).take(i + 1));
            i += 1;
        }
        assert(disk_deltas(prev_rows, cur_rows).take(i as int) =~= disk_deltas(prev_rows, cur_rows));
        let since = self.last_time;
        self.prev_sectors = current;
        self.last_time = Some(now);
        DiskUpdate::Rates { since, devices }
    }
}

} // verus!

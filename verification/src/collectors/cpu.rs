//! Processor usage from `/proc/stat`.
use vstd::prelude::*;
use crate::text::{
    chars_of,
    lines,
    parse_or_zero,
    parse_u64_chars,
    split_lines,
    split_words,
    starts_with,
    starts_with_str,
    views,
    words,
};

verus! {

/// The numbers that follow the label of a `/proc/stat` line: at most seven of them,
/// a field that is no number reading as 0.
pub open spec fn cpu_fields(line: Seq<char>) -> Seq<u64> {
    let w = words(line);
    let rest = if w.len() == 0 {
        w
    } else {
        w.drop_first()
    };
    let f = if rest.len() <= 7 {
        rest
    } else {
        rest.take(7)
    };
    f.map_values(|t: Seq<char>| parse_or_zero(t))
}

/// The sum of `s`.
pub open spec fn sum(s: Seq<u64>) -> nat
    decreases s.len(),
{
    if s.len() == 0 {
        0
    } else {
        sum(s.drop_last()) + s.last() as nat
    }
}

pub open spec fn is_cpu_line(line: Seq<char>) -> bool {
    starts_with(line, seq!['c', 'p', 'u'])
}

/// The leading lines that begin with `cpu`, up to the first one that does not.
pub open spec fn cpu_block(ls: Seq<Seq<char>>) -> Seq<Seq<char>>
    decreases ls.len(),
{
    if ls.len() == 0 || !is_cpu_line(ls[0]) {
        Seq::empty()
    } else {
        seq![ls[0]] + cpu_block(ls.drop_first())
    }
}

/// Whether a line with these fields is read: it needs the five fields up to `idle`
/// and `iowait`.
pub open spec fn is_reading(f: Seq<u64>) -> bool {
    f.len() >= 5
}

/// `(idle, total)` ticks of a line with fields `f`: `idle + iowait`, and the sum of
/// all fields.
pub open spec fn reading(f: Seq<u64>) -> (u64, u64) {
    ((f[3] + f[4]) as u64, sum(f) as u64)
}

/// The `(idle, total)` readings of the lines `ls` that carry one, in order.
pub open spec fn readings(ls: Seq<Seq<char>>) -> Seq<(u64, u64)>
    decreases ls.len(),
{
    if ls.len() == 0 {
        Seq::empty()
    } else {
        let r = readings(ls.drop_last());
        let f = cpu_fields(ls.last());
        if is_reading(f) {
            r.push(reading(f))
        } else {
            r
        }
    }
}

/// One `(idle, total)` reading per `cpu` line at the start of `/proc/stat`.
pub open spec fn stat_readings(text: Seq<char>) -> Seq<(u64, u64)> {
    readings(cpu_block(lines(text)))
}

/// Whether every sum in `stat_readings` fits in a `u64`; adding the fields of a line
/// whose sum does not overflows.
pub open spec fn stat_sums_fit(text: Seq<char>) -> bool {
    let b = cpu_block(lines(text));
    forall|i: int| 0 <= i < b.len() && is_reading(#[trigger] cpu_fields(b[i])) ==> sum(
        cpu_fields(b[i]),
    ) <= u64::MAX
}

proof fn lemma_cpu_block(ls: Seq<Seq<char>>, k: int)
    requires
        0 <= k <= ls.len(),
        forall|j: int| 0 <= j < k ==> is_cpu_line(#[trigger] ls[j]),
    ensures
        cpu_block(ls).len() >= k,
        forall|j: int| 0 <= j < k ==> #[trigger] cpu_block(ls)[j] == ls[j],
        k == ls.len() || !is_cpu_line(ls[k]) ==> cpu_block(ls) == ls.take(k),
    decreases k,
{
    if k > 0 {
        let t = ls.drop_first();
        assert forall|j: int| 0 <= j < k - 1 implies is_cpu_line(#[trigger] t[j]) by {
            assert(t[j] == ls[j + 1]);
        }
        lemma_cpu_block(t, k - 1);
        assert(cpu_block(ls) == seq![ls[0]] + cpu_block(t));
        if k == ls.len() || !is_cpu_line(ls[k]) {
            assert(k - 1 == t.len() || !is_cpu_line(t[k - 1]));
            assert(cpu_block(ls) =~= ls.take(k));
        }
    } else {
        if k == ls.len() || !is_cpu_line(ls[k]) {
            assert(cpu_block(ls) =~= ls.take(k));
        }
    }
}

proof fn lemma_sum_prefix(s: Seq<u64>, k: int)
    requires
        0 <= k <= s.len(),
    ensures
        sum(s.take(k)) <= sum(s),
    decreases s.len(),
{
    if k < s.len() {
        lemma_sum_prefix(s.drop_last(), k);
        assert(s.drop_last().take(k) =~= s.take(k));
    } else {
        assert(s.take(k) =~= s);
    }
}

/// The fields of a `/proc/stat` line (see `cpu_fields`).
fn line_fields(line: &Vec<char>) -> (r: Vec<u64>)
    ensures
        r@ == cpu_fields(line@),
{
    let w = split_words(line);
    let end: usize = if w.len() > 8 {
        8
    } else {
        w.len()
    };
    let mut r: Vec<u64> = Vec::new();
    let mut k: usize = 1;
    let ghost rest = if words(line@).len() == 0 {
        words(line@)
    } else {
        words(line@).drop_first()
    };
    let ghost f = if rest.len() <= 7 {
        rest
    } else {
        rest.take(7)
    };
    while k < end
        invariant
            1 <= k,
            k <= end || (end == 0 && k == 1),
            end <= w.len(),
            end == if w.len() > 8 {
                8
            } else {
                w.len() as int
            },
            views(w@) == words(line@),
            rest == (if words(line@).len() == 0 {
                words(line@)
            } else {
                words(line@).drop_first()
            }),
            f == (if rest.len() <= 7 {
                rest
            } else {
                rest.take(7)
            }),
            r@ == f.take(k - 1).map_values(|t: Seq<char>| parse_or_zero(t)),
        decreases end - k,
    {
        let v = match parse_u64_chars(&w[k]) {
            Some(v) => v,
            None => 0,
        };
        proof {
            assert(views(w@)[k as int] == w@[k as int]@);
            assert(f[k - 1] == w@[k as int]@);
            assert(f.take(k as int).map_values(|t: Seq<char>| parse_or_zero(t)) =~= f.take(
                k - 1,
            ).map_values(|t: Seq<char>| parse_or_zero(t)).push(v));
        }
        r.push(v);
        k += 1;
    }
    proof {
        assert(views(w@).len() == w@.len());
        assert(f.len() == k - 1);
        assert(f.take(k - 1) =~= f);
    }
    r
}

/// The sum of `f`, when it fits in a `u64`.
fn checked_sum(f: &Vec<u64>) -> (r: Option<u64>)
    ensures
        r == (if sum(f@) <= u64::MAX {
            Some(sum(f@) as u64)
        } else {
            None
        }),
{
    let mut total: u64 = 0;
    let mut i: usize = 0;
    while i < f.len()
        invariant
            i <= f.len(),
            total == sum(f@.take(i as int)),
        decreases f.len() - i,
    {
        assert(f@.take(i + 1).drop_last() =~= f@.take(i as int));
        match total.checked_add(f[i]) {
            Some(t) => {
                total = t;
            },
            None => {
                proof {
                    lemma_sum_prefix(f@, i + 1);
                }
                return None;
            },
        }
        i += 1;
    }
    assert(f@.take(i as int) =~= f@);
    Some(total)
}

/// Ticks spent idle and in all, since the previous reading, of one processor
/// (or of all of them, for the first line).
#[derive(Clone, Copy, Debug, PartialEq, Eq, Structural)]
pub struct CpuDelta {
    pub idle: u64,
    pub total: u64,
}

/// What `advance` returns for the readings `cur`, after the readings `idle`, `total`:
/// per processor the saturating difference to the previous reading (to 0 where
/// there is none), or all zeros when there is no previous reading at all.
pub open spec fn cpu_deltas(idle: Seq<u64>, total: Seq<u64>, cur: Seq<(u64, u64)>) -> Seq<
    CpuDelta,
> {
    Seq::new(
        cur.len(),
        |i: int|
            if idle.len() == 0 {
                CpuDelta { idle: 0, total: 0 }
            } else {
                CpuDelta {
                    idle: cur[i].0.saturating_sub(if i < idle.len() { idle[i] } else { 0 }),
                    total: cur[i].1.saturating_sub(if i < total.len() { total[i] } else { 0 }),
                }
            },
    )
}

/// The first reading, with no previous one, yields a zero delta per processor; and
/// so does a reading equal to the previous one.
pub proof fn lemma_unchanged_readings_give_zero_deltas(r: Seq<(u64, u64)>)
    ensures
        cpu_deltas(Seq::empty(), Seq::empty(), r) == Seq::new(
            r.len(),
            |i: int| CpuDelta { idle: 0, total: 0 },
        ),
        cpu_deltas(
            r.map_values(|p: (u64, u64)| p.0),
            r.map_values(|p: (u64, u64)| p.1),
            r,
        ) == Seq::new(r.len(), |i: int| CpuDelta { idle: 0, total: 0 }),
{
    assert(cpu_deltas(Seq::empty(), Seq::empty(), r) =~= Seq::new(
        r.len(),
        |i: int| CpuDelta { idle: 0, total: 0 },
    ));
    assert(cpu_deltas(
        r.map_values(|p: (u64, u64)| p.0),
        r.map_values(|p: (u64, u64)| p.1),
        r,
    ) =~= Seq::new(r.len(), |i: int| CpuDelta { idle: 0, total: 0 }));
}

/// Turns successive `/proc/stat` readings into per-processor tick counts.
pub struct CpuCollector {
    prev_idle: Vec<u64>,
    prev_total: Vec<u64>,
}

impl CpuCollector {
    /// The idle ticks of the previous reading, per processor.
    pub closed spec fn prev_idle(&self) -> Seq<u64> {
        self.prev_idle@
    }

    /// The total ticks of the previous reading, per processor.
    pub closed spec fn prev_total(&self) -> Seq<u64> {
        self.prev_total@
    }

    /// A collector with no previous reading.
    pub fn new() -> (c: Self)
        ensures
            c.prev_idle() == Seq::<u64>::empty(),
            c.prev_total() == Seq::<u64>::empty(),
    {
        CpuCollector { prev_idle: Vec::new(), prev_total: Vec::new() }
    }

    /// Whether every `cpu` line of `text` has fields whose sum fits in a `u64`, as
    /// `parse_stat` needs.
    pub fn stat_sums_fit(text: &str) -> (r: bool)
        ensures
            r == stat_sums_fit(text@),
    {
        let chars = chars_of(text);
        let ls = split_lines(&chars);
        let ghost l = lines(text@);
        let mut i: usize = 0;
        while i < ls.len()
            invariant
                i <= ls.len(),
                views(ls@) == l,
                l == lines(text@),
                forall|j: int| 0 <= j < i ==> is_cpu_line(#[trigger] l[j]),
                forall|j: int|
                    0 <= j < i && is_reading(#[trigger] cpu_fields(l[j])) ==> sum(cpu_fields(l[j]))
                        <= u64::MAX,
            decreases ls.len() - i,
        {
            assert(views(ls@)[i as int] == ls@[i as int]@);
            proof {
                reveal_strlit("cpu");
                assert("cpu"@ =~= seq!['c', 'p', 'u']);
            }
            if !starts_with_str(&ls[i], "cpu") {
                proof {
                    lemma_cpu_block(l, i as int);
                }
                return true;
            }
            let f = line_fields(&ls[i]);
            if f.len() >= 5 {
                if checked_sum(&f).is_none() {
                    proof {
                        lemma_cpu_block(l, i + 1);
                        assert(cpu_block(l)[i as int] == l[i as int]);
                    }
                    return false;
                }
            }
            i += 1;
        }
        proof {
            lemma_cpu_block(l, i as int);
        }
        true
    }

    /// One `(idle, total)` reading per `cpu` line at the start of the `/proc/stat`
    /// text `text`.
    pub fn parse_stat(text: &str) -> (r: Vec<(u64, u64)>)
        requires
            stat_sums_fit(text@),
        ensures
            r@ == stat_readings(text@),
    {
        let chars = chars_of(text);
        let ls = split_lines(&chars);
        let ghost l = lines(text@);
        let mut results: Vec<(u64, u64)> = Vec::new();
        let mut i: usize = 0;
        while i < ls.len()
            invariant
                i <= ls.len(),
                views(ls@) == l,
                l == lines(text@),
                stat_sums_fit(text@),
                forall|j: int| 0 <= j < i ==> is_cpu_line(#[trigger] l[j]),
                results@ == readings(l.take(i as int)),
            ensures
                i == ls.len() || !is_cpu_line(l[i as int]),
                forall|j: int| 0 <= j < i ==> is_cpu_line(#[trigger] l[j]),
                results@ == readings(l.take(i as int)),
                i <= ls.len(),
            decreases ls.len() - i,
        {
            assert(views(ls@)[i as int] == ls@[i as int]@);
            proof {
                reveal_strlit("cpu");
                assert("cpu"@ =~= seq!['c', 'p', 'u']);
            }
            if !starts_with_str(&ls[i], "cpu") {
                break;
            }
            proof {
                lemma_cpu_block(l, i + 1);
                assert(cpu_block(l)[i as int] == l[i as int]);
                assert(l.take(i + 1).drop_last() =~= l.take(i as int));
            }
            let f = line_fields(&ls[i]);
            if f.len() >= 5 {
                let total = match checked_sum(&f) {
                    Some(t) => t,
                    None => {
                        return results;
                    },
                };
                proof {
                    let t5 = f@.take(5);
                    let t4 = f@.take(4);
                    assert(t5.drop_last() =~= t4);
                    assert(t4.drop_last() =~= f@.take(3));
                    assert(sum(t5) == sum(t4) + f@[4]);
                    assert(sum(t4) == sum(f@.take(3)) + f@[3]);
                    lemma_sum_prefix(f@, 5);
                }
                results.push((f[3] + f[4], total));
            }
            i += 1;
        }
        proof {
            lemma_cpu_block(l, i as int);
        }
        assert(views(ls@).len() == ls@.len());
        results
    }

    /// Records `readings` as the previous reading and returns, per processor, the
    /// ticks spent idle and in all since the previous reading: all zeros when there
    /// was none.
    pub fn advance(&mut self, readings: &Vec<(u64, u64)>) -> (r: Vec<CpuDelta>)
        ensures
            r@ == cpu_deltas(old(self).prev_idle(), old(self).prev_total(), readings@),
            final(self).prev_idle() == readings@.map_values(|p: (u64, u64)| p.0),
            final(self).prev_total() == readings@.map_values(|p: (u64, u64)| p.1),
    {
        let first = self.prev_idle.len() == 0;
        let mut out: Vec<CpuDelta> = Vec::new();
        let mut idle: Vec<u64> = Vec::new();
        let mut total: Vec<u64> = Vec::new();
        let mut i: usize = 0;
        while i < readings.len()
            invariant
                i <= readings.len(),
                first == (self.prev_idle@.len() == 0),
                out@ == cpu_deltas(self.prev_idle@, self.prev_total@, readings@).take(i as int),
                idle@ == readings@.take(i as int).map_values(|p: (u64, u64)| p.0),
                total@ == readings@.take(i as int).map_values(|p: (u64, u64)| p.1),
            decreases readings.len() - i,
        {
            let (cur_idle, cur_total) = readings[i];
            let d = if first {
                CpuDelta { idle: 0, total: 0 }
            } else {
                let prev_idle = if i < self.prev_idle.len() {
                    self.prev_idle[i]
                } else {
                    0
                };
                let prev_total = if i < self.prev_total.len() {
                    self.prev_total[i]
                } else {
                    0
                };
                CpuDelta {
                    idle: cur_idle.saturating_sub(prev_idle),
                    total: cur_total.saturating_sub(prev_total),
                }
            };
            out.push(d);
            idle.push(cur_idle);
            total.push(cur_total);
            proof {
                assert(out@ =~= cpu_deltas(self.prev_idle@, self.prev_total@, readings@).take(
                    i + 1,
                ));
                assert(idle@ =~= readings@.take(i + 1).map_values(|p: (u64, u64)| p.0));
                assert(total@ =~= readings@.take(i + 1).map_values(|p: (u64, u64)| p.1));
            }
            i += 1;
        }
        proof {
            assert(readings@.take(i as int) =~= readings@);
            assert(out@ =~= cpu_deltas(self.prev_idle@, self.prev_total@, readings@));
        }
        self.prev_idle = idle;
        self.prev_total = total;
        out
    }
}

} // verus!

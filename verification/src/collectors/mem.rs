//! Memory and swap use from `/proc/meminfo`.
use vstd::prelude::*;
use crate::text::{
    chars_of,
    eq_str,
    lines,
    parse_or_zero,
    parse_u64_chars,
    split_lines,
    split_words,
    trim_colons,
    trim_colons_chars,
    views,
    words,
};

verus! {

/// The `key: value` pairs of the lines `ls`: each line with at least two words maps
/// its first word, without trailing `':'`, to its second word read as a number (0
/// when it is none); a later line overrides an earlier one with the same key.
pub open spec fn meminfo_map(ls: Seq<Seq<char>>) -> Map<Seq<char>, u64>
    decreases ls.len(),
{
    if ls.len() == 0 {
        Map::empty()
    } else {
        let m = meminfo_map(ls.drop_last());
        let w = words(ls.last());
        if w.len() >= 2 {
            m.insert(trim_colons(w[0]), parse_or_zero(w[1]))
        } else {
            m
        }
    }
}

/// The value of `key` in the `/proc/meminfo` text `text`, 0 when it has none.
pub open spec fn meminfo_value(text: Seq<char>, key: Seq<char>) -> u64 {
    lookup(meminfo_map(lines(text)), key)
}

/// The `/proc/meminfo` values the monitor shows, in kB.
#[derive(Clone, Copy, Debug, PartialEq, Eq, Structural)]
pub struct MemInfo {
    pub total: u64,
    pub available: u64,
    pub swap_total: u64,
    pub swap_free: u64,
}

/// Reads memory use from `/proc/meminfo`.
pub struct MemCollector;

impl MemCollector {
    pub fn new() -> (c: Self) {
        MemCollector
    }

    /// The `MemTotal`, `MemAvailable`, `SwapTotal` and `SwapFree` values of the
    /// `/proc/meminfo` text `text`, each 0 when absent.
    pub fn parse_meminfo(text: &str) -> (r: MemInfo)
        ensures
            r.total == meminfo_value(text@, "MemTotal"@),
            r.available == meminfo_value(text@, "MemAvailable"@),
            r.swap_total == meminfo_value(text@, "SwapTotal"@),
            r.swap_free == meminfo_value(text@, "SwapFree"@),
    {
        let chars = chars_of(text);
        let ls = split_lines(&chars);
        let ghost l = lines(text@);
        let mut info = MemInfo { total: 0, available: 0, swap_total: 0, swap_free: 0 };
        let mut i: usize = 0;
        while i < ls.len()
            invariant
                i <= ls.len(),
                views(ls@) == l,
                l == lines(text@),
                info.total == lookup(meminfo_map(l.take(i as int)), "MemTotal"@),
                info.available == lookup(meminfo_map(l.take(i as int)), "MemAvailable"@),
                info.swap_total == lookup(meminfo_map(l.take(i as int)), "SwapTotal"@),
                info.swap_free == lookup(meminfo_map(l.take(i as int)), "SwapFree"@),
            decreases ls.len() - i,
        {
            proof {
                assert(views(ls@)[i as int] == ls@[i as int]@);
                assert(l.take(i + 1).drop_last() =~= l.take(i as int));
            }
            let w = split_words(&ls[i]);
            if w.len() >= 2 {
                proof {
                    assert(views(w@)[0] == w@[0]@);
                    assert(views(w@)[1] == w@[1]@);
                }
                let key = trim_colons_chars(&w[0]);
                let value = match parse_u64_chars(&w[1]) {
                    Some(v) => v,
                    None => 0,
                };
                if eq_str(&key, "MemTotal") {
                    info.total = value;
                }
                if eq_str(&key, "MemAvailable") {
                    info.available = value;
                }
                if eq_str(&key, "SwapTotal") {
                    info.swap_total = value;
                }
                if eq_str(&key, "SwapFree") {
                    info.swap_free = value;
                }
            }
            i += 1;
        }
        assert(l.take(i as int) =~= l);
        info
    }
}

/// The value of `key` in `m`, 0 when it has none.
pub open spec fn lookup(m: Map<Seq<char>, u64>, key: Seq<char>) -> u64 {
    if m.contains_key(key) {
        m[key]
    } else {
        0
    }
}

} // verus!

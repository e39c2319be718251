//! How many threads a machine runs well.

use vstd::prelude::*;
use crate::decimal;

verus! {

/// Whether a character is white space.
pub open spec fn is_space(c: char) -> bool {
    ||| '\u{9}' <= c <= '\u{d}'
    ||| c == ' '
    ||| c == '\u{85}'
    ||| c == '\u{a0}'
    ||| c == '\u{1680}'
    ||| '\u{2000}' <= c <= '\u{200a}'
    ||| c == '\u{2028}'
    ||| c == '\u{2029}'
    ||| c == '\u{202f}'
    ||| c == '\u{205f}'
    ||| c == '\u{3000}'
}

/// The text without white space at its start.
pub open spec fn trim_start(text: Seq<char>) -> Seq<char>
    decreases text.len(),
{
    if text.len() > 0 && is_space(text[0]) {
        trim_start(text.drop_first())
    } else {
        text
    }
}

/// The text without white space at its end.
pub open spec fn trim_end(text: Seq<char>) -> Seq<char>
    decreases text.len(),
{
    if text.len() > 0 && is_space(text.last()) {
        trim_end(text.drop_last())
    } else {
        text
    }
}

/// The text without white space around it.
pub open spec fn trimmed(text: Seq<char>) -> Seq<char> {
    trim_end(trim_start(text))
}

/// Whether a character separates the numbers of a list of CPUs.
pub open spec fn is_separator(c: char) -> bool {
    c == '-' || c == ','
}

/// Whether a list of CPUs is more than a single number.
pub open spec fn names_several(list: Seq<char>) -> bool {
    exists|i: int| 0 <= i < list.len() && is_separator(#[trigger] list[i])
}

/// The parts of a text between the separators `sep`. There is one more than
/// there are separators.
pub open spec fn split(text: Seq<char>, sep: char) -> Seq<Seq<char>>
    decreases text.len(),
{
    if text.len() == 0 {
        seq![seq![]]
    } else {
        let parts = split(text.drop_last(), sep);
        if text.last() == sep {
            parts.push(seq![])
        } else {
            parts.drop_last().push(parts.last().push(text.last()))
        }
    }
}

/// The first and the last CPU that an item of a list names: twice the same one
/// for a number, `lo` and `hi` for a range `lo-hi`. It is `None` where the item
/// is neither, or its range runs backwards.
pub open spec fn item_range(item: Seq<char>) -> Option<(usize, usize)> {
    let ends = split(item, '-');
    if ends.len() == 1 {
        match decimal::parsed(ends[0]) {
            Some(cpu) => Some((cpu, cpu)),
            None => None,
        }
    } else if ends.len() == 2 {
        match (decimal::parsed(ends[0]), decimal::parsed(ends[1])) {
            (Some(lo), Some(hi)) => if lo <= hi {
                Some((lo, hi))
            } else {
                None
            },
            _ => None,
        }
    } else {
        None
    }
}

/// Whether an item of a list names a CPU.
pub open spec fn item_names(item: Seq<char>, cpu: int) -> bool {
    item_range(item) matches Some((lo, hi)) && lo <= cpu <= hi
}

/// Whether every item of a list is a number or a range.
pub open spec fn is_cpu_list(list: Seq<char>) -> bool {
    forall|k: int|
        0 <= k < split(list, ',').len() ==> item_range(#[trigger] split(list, ',')[k]) is Some
}

/// The CPUs that the items of a list name.
pub open spec fn named_cpus(list: Seq<char>) -> Set<int> {
    Set::new(
        |cpu: int|
            exists|k: int|
                0 <= k < split(list, ',').len() && item_names(#[trigger] split(list, ',')[k], cpu),
    )
}

/// The number at the start of a list and the one at its end, whatever stands
/// between them.
pub open spec fn outer_numbers(list: Seq<char>) -> (Option<usize>, Option<usize>) {
    let items = split(list, ',');
    (
        decimal::parsed(split(items[0], '-')[0]),
        decimal::parsed(split(items.last(), '-').last()),
    )
}

/// Number of CPUs in a list such as `0-1`, `0,64` or `0-3,8-11`: those that its
/// items name, each counted once. A list without separators has one.
///
/// A list with an item that is neither a number nor a range is taken to run from
/// the number at its start to the one at its end: `0-1-2` has three CPUs. The
/// result is `None` where these cannot be read or run backwards, or where there
/// are more CPUs than a `usize` counts.
pub open spec fn listed_cpus(list: Seq<char>) -> Option<int> {
    let cpus = if !names_several(list) {
        Some(1int)
    } else if is_cpu_list(list) {
        Some(named_cpus(list).len() as int)
    } else {
        match outer_numbers(list) {
            (Some(lo), Some(hi)) => if lo <= hi {
                Some(hi - lo + 1)
            } else {
                None
            },
            _ => None,
        }
    };
    match cpus {
        Some(cpus) => if cpus <= usize::MAX {
            Some(cpus)
        } else {
            None
        },
        None => None,
    }
}

/// Number of threads on a core, given the list of its sibling threads. Where
/// there is no list or it cannot be read, it is taken to be 2.
pub open spec fn threads_per_core(list: Option<Seq<char>>) -> int {
    match list {
        Some(list) => match listed_cpus(trimmed(list)) {
            Some(threads) => threads,
            None => 2,
        },
        None => 2,
    }
}

/// Number of physical cores behind `cpus` CPUs, of which each core has
/// `threads`. There is at least one.
pub open spec fn physical_cores(cpus: int, threads: int) -> int {
    if cpus / threads < 1 {
        1
    } else {
        cpus / threads
    }
}

fn is_space_char(c: char) -> (space: bool)
    ensures
        space == is_space(c),
{
    ('\u{9}' <= c && c <= '\u{d}') || c == ' ' || c == '\u{85}' || c == '\u{a0}' || c == '\u{1680}'
        || ('\u{2000}' <= c && c <= '\u{200a}') || c == '\u{2028}' || c == '\u{2029}' || c
        == '\u{202f}' || c == '\u{205f}' || c == '\u{3000}'
}

/// The bounds of the text without white space around it.
fn trim_bounds(chars: &Vec<char>) -> (bounds: (usize, usize))
    ensures
        bounds.0 <= bounds.1 <= chars@.len(),
        chars@.subrange(bounds.0 as int, bounds.1 as int) == trimmed(chars@),
{
    let mut from: usize = 0;
    let mut to: usize = chars.len();
    assert(chars@.subrange(0, to as int) =~= chars@);
    while from < to && is_space_char(chars[from])
        invariant
            from <= to == chars@.len(),
            trim_start(chars@.subrange(from as int, to as int)) == trim_start(chars@),
        decreases to - from,
    {
        assert(chars@.subrange(from as int, to as int).drop_first() =~= chars@.subrange(
            from + 1,
            to as int,
        ));
        from = from + 1;
    }
    while from < to && is_space_char(chars[to - 1])
        invariant
            from <= to <= chars@.len(),
            trim_end(chars@.subrange(from as int, to as int)) == trimmed(chars@),
        decreases to - from,
    {
        assert(chars@.subrange(from as int, to as int).drop_last() =~= chars@.subrange(
            from as int,
            to - 1,
        ));
        to = to - 1;
    }
    (from, to)
}

/// Whether there is a separator among the characters from `from` up to `to`.
fn has_separator(chars: &Vec<char>, from: usize, to: usize) -> (found: bool)
    requires
        from <= to <= chars@.len(),
    ensures
        found == names_several(chars@.subrange(from as int, to as int)),
{
    let ghost list = chars@.subrange(from as int, to as int);
    let mut i: usize = from;
    while i < to
        invariant
            from <= i <= to <= chars@.len(),
            list == chars@.subrange(from as int, to as int),
            forall|k: int| 0 <= k < i - from ==> !is_separator(#[trigger] list[k]),
        decreases to - i,
    {
        assert(list[i - from] == chars@[i as int]);
        if chars[i] == '-' || chars[i] == ',' {
            return true;
        }
        i = i + 1;
    }
    false
}

/// Whether a list of sibling threads is more than a single number, which is what
/// the list of a core with several threads is.
pub fn has_siblings(list: &str) -> (several: bool)
    ensures
        several == names_several(list@),
{
    let chars = decimal::chars_of(list);
    assert(chars@.subrange(0, chars@.len() as int) =~= list@);
    has_separator(&chars, 0, chars.len())
}

/// The parts of a text that lie at the given positions.
spec fn parts_at(chars: Seq<char>, positions: Seq<(usize, usize)>) -> Seq<Seq<char>> {
    positions.map_values(|at: (usize, usize)| chars.subrange(at.0 as int, at.1 as int))
}

/// Splits the characters from `from` up to `to` at `sep`, and returns where each
/// part starts and ends.
fn split_range(chars: &Vec<char>, from: usize, to: usize, sep: char) -> (positions: Vec<
    (usize, usize),
>)
    requires
        from <= to <= chars@.len(),
    ensures
        parts_at(chars@, positions@) == split(chars@.subrange(from as int, to as int), sep),
        positions@.len() > 0,
        forall|k: int|
            0 <= k < positions@.len() ==> (#[trigger] positions@[k]).0 <= positions@[k].1
                <= chars@.len(),
{
    let mut positions: Vec<(usize, usize)> = Vec::new();
    let mut start: usize = from;
    let mut i: usize = from;
    proof {
        let nothing = chars@.subrange(from as int, from as int);
        assert(nothing =~= seq![]);
        assert(split(nothing, sep) =~= parts_at(chars@, positions@).push(nothing));
    }
    while i < to
        invariant
            from <= start <= i <= to <= chars@.len(),
            split(chars@.subrange(from as int, i as int), sep) == parts_at(
                chars@,
                positions@,
            ).push(chars@.subrange(start as int, i as int)),
            forall|k: int|
                0 <= k < positions@.len() ==> (#[trigger] positions@[k]).0 <= positions@[k].1
                    <= chars@.len(),
        decreases to - i,
    {
        let ghost seen = chars@.subrange(from as int, i + 1);
        let ghost part = chars@.subrange(start as int, i as int);
        let ghost before = parts_at(chars@, positions@);
        assert(seen.drop_last() =~= chars@.subrange(from as int, i as int));
        assert(before.push(part).drop_last() =~= before);
        if chars[i] == sep {
            positions.push((start, i));
            start = i + 1;
            assert(parts_at(chars@, positions@) =~= before.push(part));
            assert(chars@.subrange(start as int, i + 1) =~= seq![]);
        } else {
            assert(part.push(chars@[i as int]) =~= chars@.subrange(start as int, i + 1));
        }
        i = i + 1;
    }
    let ghost before = parts_at(chars@, positions@);
    positions.push((start, to));
    assert(parts_at(chars@, positions@) =~= before.push(
        chars@.subrange(start as int, to as int),
    ));
    positions
}

/// Reads the item from `from` up to `to`.
fn read_item(chars: &Vec<char>, from: usize, to: usize) -> (range: Option<(usize, usize)>)
    requires
        from <= to <= chars@.len(),
    ensures
        range == item_range(chars@.subrange(from as int, to as int)),
{
    let ends = split_range(chars, from, to, '-');
    let ghost parts = parts_at(chars@, ends@);
    assert(parts.len() == ends@.len());
    if ends.len() == 1 {
        assert(parts[0] == chars@.subrange(ends@[0].0 as int, ends@[0].1 as int));
        match decimal::parse_range(chars, ends[0].0, ends[0].1) {
            Some(cpu) => Some((cpu, cpu)),
            None => None,
        }
    } else if ends.len() == 2 {
        assert(parts[0] == chars@.subrange(ends@[0].0 as int, ends@[0].1 as int));
        assert(parts[1] == chars@.subrange(ends@[1].0 as int, ends@[1].1 as int));
        match (
            decimal::parse_range(chars, ends[0].0, ends[0].1),
            decimal::parse_range(chars, ends[1].0, ends[1].1),
        ) {
            (Some(lo), Some(hi)) => if lo <= hi {
                Some((lo, hi))
            } else {
                None
            },
            _ => None,
        }
    } else {
        None
    }
}

/// Whether one of the ranges holds `cpu`.
spec fn covers(ranges: Seq<(usize, usize)>, cpu: int) -> bool {
    exists|k: int| 0 <= k < ranges.len() && (#[trigger] ranges[k]).0 <= cpu <= ranges[k].1
}

/// The numbers below `end` that one of the ranges holds.
spec fn covered_below(ranges: Seq<(usize, usize)>, end: int) -> Set<int> {
    Set::new(|cpu: int| 0 <= cpu < end && covers(ranges, cpu))
}

proof fn lemma_covered_is_finite(ranges: Seq<(usize, usize)>, end: int)
    requires
        0 <= end,
    ensures
        covered_below(ranges, end).finite(),
{
    let all = vstd::set_lib::set_int_range(0, end);
    vstd::set_lib::lemma_int_range(0, end);
    assert(covered_below(ranges, end).subset_of(all));
    vstd::set_lib::lemma_len_subset(covered_below(ranges, end), all);
}

/// Where nothing is covered from `from` up to `lo` and everything from `lo` to
/// `hi`, the latter adds its size.
proof fn lemma_covered_grows(ranges: Seq<(usize, usize)>, from: int, lo: int, hi: int)
    requires
        0 <= from <= lo <= hi,
        forall|cpu: int| from <= cpu < lo ==> !(#[trigger] covers(ranges, cpu)),
        forall|cpu: int| lo <= cpu <= hi ==> #[trigger] covers(ranges, cpu),
    ensures
        covered_below(ranges, hi + 1).len() == covered_below(ranges, from).len() + (hi - lo + 1),
{
    let before = covered_below(ranges, from);
    let more = vstd::set_lib::set_int_range(lo, hi + 1);
    lemma_covered_is_finite(ranges, from);
    vstd::set_lib::lemma_int_range(lo, hi + 1);
    assert(before.disjoint(more));
    vstd::set_lib::lemma_set_disjoint_lens(before, more);
    assert(covered_below(ranges, hi + 1) =~= before + more);
}

/// Finds the first number from `from` on that one of the ranges holds, and the
/// end of such a range.
fn next_covered(ranges: &Vec<(usize, usize)>, from: usize) -> (found: Option<(usize, usize)>)
    requires
        forall|k: int| 0 <= k < ranges@.len() ==> (#[trigger] ranges@[k]).0 <= ranges@[k].1,
    ensures
        match found {
            Some((lo, hi)) => {
                &&& from <= lo <= hi
                &&& forall|cpu: int| from <= cpu < lo ==> !(#[trigger] covers(ranges@, cpu))
                &&& forall|cpu: int| lo <= cpu <= hi ==> #[trigger] covers(ranges@, cpu)
            },
            None => forall|cpu: int| from <= cpu ==> !(#[trigger] covers(ranges@, cpu)),
        },
{
    let mut found: Option<(usize, usize)> = None;
    let mut i: usize = 0;
    while i < ranges.len()
        invariant
            i <= ranges@.len(),
            forall|k: int| 0 <= k < ranges@.len() ==> (#[trigger] ranges@[k]).0 <= ranges@[k].1,
            match found {
                Some((lo, hi)) => {
                    &&& from <= lo <= hi
                    &&& exists|k: int|
                        0 <= k < i && (#[trigger] ranges@[k]).0 <= lo && ranges@[k].1 == hi
                    &&& forall|k: int|
                        0 <= k < i ==> (#[trigger] ranges@[k]).1 < from || lo <= ranges@[k].0 || lo
                            == from
                },
                None => forall|k: int| 0 <= k < i ==> (#[trigger] ranges@[k]).1 < from,
            },
        decreases ranges@.len() - i,
    {
        let (first, last): (usize, usize) = ranges[i];
        if last >= from {
            let start: usize = if first < from { from } else { first };
            let is_first = match found {
                Some((lo, _)) => start < lo,
                None => true,
            };
            if is_first {
                found = Some((start, last));
                assert(ranges@[i as int].0 <= start && ranges@[i as int].1 == last);
            }
        }
        i = i + 1;
    }
    found
}

/// Counts the numbers that the ranges hold, each once.
fn count_covered(ranges: &Vec<(usize, usize)>) -> (count: Option<usize>)
    requires
        forall|k: int| 0 <= k < ranges@.len() ==> (#[trigger] ranges@[k]).0 <= ranges@[k].1,
    ensures
        match count {
            Some(count) => covered_below(ranges@, usize::MAX + 1).len() == count,
            None => covered_below(ranges@, usize::MAX + 1).len() > usize::MAX,
        },
{
    let ghost all = covered_below(ranges@, usize::MAX + 1);
    let mut count: usize = 0;
    let mut from: usize = 0;
    proof {
        lemma_covered_is_finite(ranges@, usize::MAX + 1);
        assert(covered_below(ranges@, 0) =~= Set::<int>::empty());
    }
    loop
        invariant
            forall|k: int| 0 <= k < ranges@.len() ==> (#[trigger] ranges@[k]).0 <= ranges@[k].1,
            all == covered_below(ranges@, usize::MAX + 1),
            all.finite(),
            count == covered_below(ranges@, from as int).len(),
        decreases usize::MAX - from,
    {
        let (lo, hi): (usize, usize) = match next_covered(ranges, from) {
            Some(found) => found,
            None => {
                assert(all =~= covered_below(ranges@, from as int));
                return Some(count);
            },
        };
        proof {
            lemma_covered_grows(ranges@, from as int, lo as int, hi as int);
            assert(covered_below(ranges@, hi + 1).subset_of(all));
            vstd::set_lib::lemma_len_subset(covered_below(ranges@, hi + 1), all);
        }
        count = match (hi - lo).checked_add(1) {
            Some(size) => match count.checked_add(size) {
                Some(sum) => sum,
                None => {
                    return None;
                },
            },
            None => {
                return None;
            },
        };
        if hi == usize::MAX {
            return Some(count);
        }
        from = hi + 1;
    }
}

/// Counts the CPUs from the number at the start of a list to the one at its end.
/// The list stands from `from` up to `to`.
fn count_outer(chars: &Vec<char>, from: usize, to: usize) -> (count: Option<usize>)
    requires
        from <= to <= chars@.len(),
    ensures
        match outer_numbers(chars@.subrange(from as int, to as int)) {
            (Some(lo), Some(hi)) => if lo <= hi && hi - lo < usize::MAX {
                count == Some((hi - lo + 1) as usize)
            } else {
                count is None
            },
            _ => count is None,
        },
{
    let items = split_range(chars, from, to, ',');
    let ghost item_parts = parts_at(chars@, items@);
    assert(item_parts.len() == items@.len());
    let (start, end): (usize, usize) = items[0];
    assert(item_parts[0] == chars@.subrange(start as int, end as int));
    let firsts = split_range(chars, start, end, '-');
    let (lo_start, lo_end): (usize, usize) = firsts[0];
    assert(parts_at(chars@, firsts@)[0] == chars@.subrange(lo_start as int, lo_end as int));
    let (start, end): (usize, usize) = items[items.len() - 1];
    assert(item_parts.last() == chars@.subrange(start as int, end as int));
    let lasts = split_range(chars, start, end, '-');
    let (hi_start, hi_end): (usize, usize) = lasts[lasts.len() - 1];
    assert(parts_at(chars@, lasts@).last() == chars@.subrange(hi_start as int, hi_end as int));
    match (
        decimal::parse_range(chars, lo_start, lo_end),
        decimal::parse_range(chars, hi_start, hi_end),
    ) {
        (Some(lo), Some(hi)) => if lo <= hi {
            (hi - lo).checked_add(1)
        } else {
            None
        },
        _ => None,
    }
}

/// Counts the CPUs of a list of sibling threads.
pub fn count_siblings(list: &str) -> (count: Option<usize>)
    ensures
        match count {
            Some(count) => listed_cpus(trimmed(list@)) == Some(count as int),
            None => listed_cpus(trimmed(list@)) is None,
        },
        count matches Some(count) ==> count > 0,
{
    let chars = decimal::chars_of(list);
    let (from, to): (usize, usize) = trim_bounds(&chars);
    let ghost names = chars@.subrange(from as int, to as int);
    if !has_separator(&chars, from, to) {
        return Some(1);
    }
    let positions = split_range(&chars, from, to, ',');
    let ghost items = split(names, ',');
    assert(items.len() == positions@.len());
    let mut ranges: Vec<(usize, usize)> = Vec::new();
    while ranges.len() < positions.len()
        invariant
            ranges@.len() <= positions@.len() == items.len(),
            from <= to <= chars@.len(),
            names == chars@.subrange(from as int, to as int),
            names == trimmed(list@),
            names_several(names),
            items == split(names, ','),
            items.len() > 0,
            items == parts_at(chars@, positions@),
            forall|k: int|
                0 <= k < positions@.len() ==> (#[trigger] positions@[k]).0 <= positions@[k].1
                    <= chars@.len(),
            forall|k: int|
                0 <= k < ranges@.len() ==> item_range(items[k]) == Some(#[trigger] ranges@[k]),
        decreases positions@.len() - ranges@.len(),
    {
        let (start, end): (usize, usize) = positions[ranges.len()];
        assert(items[ranges@.len() as int] == chars@.subrange(start as int, end as int));
        match read_item(&chars, start, end) {
            Some(range) => {
                ranges.push(range);
            },
            None => {
                assert(!is_cpu_list(names));
                return count_outer(&chars, from, to);
            },
        }
    }
    assert(is_cpu_list(names)) by {
        assert forall|k: int| 0 <= k < items.len() implies item_range(#[trigger] items[k]) is Some by {
            assert(item_range(items[k]) == Some(ranges@[k]));
        }
    }
    let count = count_covered(&ranges);
    proof {
        let all = covered_below(ranges@, usize::MAX + 1);
        assert forall|cpu: int| #[trigger] named_cpus(names).contains(cpu) implies all.contains(
            cpu,
        ) by {
            let k = choose|k: int| 0 <= k < items.len() && item_names(#[trigger] items[k], cpu);
            assert(ranges@[k].0 <= cpu <= ranges@[k].1);
        }
        assert forall|cpu: int| #[trigger] all.contains(cpu) implies named_cpus(names).contains(
            cpu,
        ) by {
            let k = choose|k: int|
                0 <= k < ranges@.len() && (#[trigger] ranges@[k]).0 <= cpu <= ranges@[k].1;
            assert(item_names(items[k], cpu));
        }
        assert(all =~= named_cpus(names));
        lemma_covered_is_finite(ranges@, usize::MAX + 1);
        assert(item_range(items[0]) == Some(ranges@[0]));
        assert(all.contains(ranges@[0].0 as int));
    }
    count
}

/// The number of physical cores and whether they run several threads each.
///
/// `first_read` and `second_read` are what two reads of the list of sibling
/// threads of the first core gave, and `available` is the number of CPUs that
/// the process may run on, each `None` where it cannot be had.
pub fn topology(
    first_read: Option<&str>,
    second_read: Option<&str>,
    available: Option<usize>,
) -> (found: (usize, bool))
    requires
        available != Some(0usize),
    ensures
        found.1 == (first_read matches Some(list) && names_several(list@)),
        found.0 == {
            let cpus = match available {
                Some(cpus) => cpus as int,
                None => 1,
            };
            if found.1 {
                physical_cores(
                    cpus,
                    threads_per_core(
                        match second_read {
                            Some(list) => Some(list@),
                            None => None,
                        },
                    ),
                )
            } else {
                cpus
            }
        },
        found.0 > 0,
{
    let has_smt = match first_read {
        Some(list) => has_siblings(list),
        None => false,
    };
    let cpus: usize = match available {
        Some(cpus) => cpus,
        None => 1,
    };
    if !has_smt {
        return (cpus, false);
    }
    let threads: usize = match second_read {
        Some(list) => match count_siblings(list) {
            Some(threads) => threads,
            None => 2,
        },
        None => 2,
    };
    let cores: usize = cpus / threads;
    if cores < 1 {
        (1, true)
    } else {
        (cores, true)
    }
}

/// The parts of a text, with the separator between them.
pub open spec fn joined(parts: Seq<Seq<char>>, sep: char) -> Seq<char>
    decreases parts.len(),
{
    if parts.len() == 0 {
        seq![]
    } else if parts.len() == 1 {
        parts[0]
    } else {
        joined(parts.drop_last(), sep).push(sep) + parts.last()
    }
}

/// The parts of a text hold no separator, and with separators between them they
/// are the text again.
pub proof fn law_parts_join_to_the_text(text: Seq<char>, sep: char)
    ensures
        split(text, sep).len() > 0,
        joined(split(text, sep), sep) == text,
        forall|k: int|
            0 <= k < split(text, sep).len() ==> !(#[trigger] split(text, sep)[k]).contains(sep),
    decreases text.len(),
{
    let parts = split(text, sep);
    if text.len() == 0 {
        assert(joined(parts, sep) =~= text);
    } else {
        let rest = text.drop_last();
        let before = split(rest, sep);
        law_parts_join_to_the_text(rest, sep);
        if text.last() == sep {
            assert(parts.drop_last() =~= before);
            assert(joined(parts, sep) =~= text);
        } else {
            let last = before.last();
            assert(parts.drop_last() =~= before.drop_last());
            assert(joined(parts, sep) =~= joined(before, sep).push(text.last()));
            assert(joined(parts, sep) =~= text);
            assert(!before[before.len() - 1].contains(sep));
            assert forall|i: int| 0 <= i < parts.last().len() implies parts.last()[i] != sep by {
                if i < last.len() {
                    assert(last.contains(last[i]));
                }
            }
        }
        assert forall|k: int| 0 <= k < parts.len() implies !(#[trigger] parts[k]).contains(sep) by {
            if k < parts.len() - 1 {
                assert(parts[k] == before[k]);
            }
        }
    }
}

/// The code points of white space: the tab and the four control characters after
/// it, the space, the next line, the no-break space, and the spaces and separators
/// of the other scripts.
pub open spec fn white_space() -> Set<int> {
    set![
        0x9int,
        0xa,
        0xb,
        0xc,
        0xd,
        0x20,
        0x85,
        0xa0,
        0x1680,
        0x2000,
        0x2001,
        0x2002,
        0x2003,
        0x2004,
        0x2005,
        0x2006,
        0x2007,
        0x2008,
        0x2009,
        0x200a,
        0x2028,
        0x2029,
        0x202f,
        0x205f,
        0x3000,
    ]
}

/// White space is what has one of the code points of white space.
pub proof fn law_white_space_has_these_code_points(c: char)
    ensures
        is_space(c) <==> white_space().contains(c as int),
{
}

/// Trimming takes white space from both ends of a text, all of it, and nothing
/// else.
pub proof fn law_trimming_takes_white_space(text: Seq<char>) -> (around: (Seq<char>, Seq<char>))
    ensures
        text == around.0 + trimmed(text) + around.1,
        forall|i: int| 0 <= i < around.0.len() ==> is_space(#[trigger] around.0[i]),
        forall|i: int| 0 <= i < around.1.len() ==> is_space(#[trigger] around.1[i]),
        trimmed(text).len() > 0 ==> !is_space(trimmed(text)[0]) && !is_space(trimmed(text).last()),
{
    let before = lemma_trim_start(text);
    let after = lemma_trim_end(trim_start(text));
    assert(text =~= before + trimmed(text) + after);
    if trimmed(text).len() > 0 {
        assert(trim_start(text)[0] == trimmed(text)[0]);
    }
    (before, after)
}

proof fn lemma_trim_start(text: Seq<char>) -> (before: Seq<char>)
    ensures
        text == before + trim_start(text),
        forall|i: int| 0 <= i < before.len() ==> is_space(#[trigger] before[i]),
        trim_start(text).len() > 0 ==> !is_space(trim_start(text)[0]),
    decreases text.len(),
{
    if text.len() > 0 && is_space(text[0]) {
        let rest = lemma_trim_start(text.drop_first());
        let before = seq![text[0]] + rest;
        assert(text =~= seq![text[0]] + text.drop_first());
        assert(text =~= before + trim_start(text));
        before
    } else {
        assert(text =~= seq![] + trim_start(text));
        seq![]
    }
}

proof fn lemma_trim_end(text: Seq<char>) -> (after: Seq<char>)
    ensures
        text == trim_end(text) + after,
        forall|i: int| 0 <= i < after.len() ==> is_space(#[trigger] after[i]),
        trim_end(text).len() > 0 ==> !is_space(trim_end(text).last()),
    decreases text.len(),
{
    if text.len() > 0 && is_space(text.last()) {
        let rest = lemma_trim_end(text.drop_last());
        let after = rest.push(text.last());
        assert(text =~= text.drop_last().push(text.last()));
        assert(text =~= trim_end(text) + after);
        after
    } else {
        assert(text =~= trim_end(text) + seq![]);
        seq![]
    }
}

/// The cores with all their threads are no more than the CPUs, and one core more
/// would be too many. Fewer CPUs than a core has threads are one core.
pub proof fn law_cores_share_out_the_cpus(cpus: int, threads: int)
    requires
        cpus >= 1,
        threads >= 1,
    ensures
        physical_cores(cpus, threads) >= 1,
        cpus >= threads ==> physical_cores(cpus, threads) * threads <= cpus < (physical_cores(
            cpus,
            threads,
        ) + 1) * threads,
        cpus < threads ==> physical_cores(cpus, threads) == 1,
{
    let q = cpus / threads;
    vstd::arithmetic::div_mod::lemma_fundamental_div_mod(cpus, threads);
    assert(q * threads <= cpus < (q + 1) * threads) by (nonlinear_arith)
        requires
            cpus == threads * q + cpus % threads,
            0 <= cpus % threads < threads,
    ;
    if cpus >= threads {
        assert(q >= 1) by (nonlinear_arith)
            requires
                cpus < (q + 1) * threads,
                cpus >= threads,
                threads >= 1,
        ;
    } else {
        assert(q < 1) by (nonlinear_arith)
            requires
                q * threads <= cpus,
                cpus < threads,
                threads >= 1,
        ;
    }
}

/// A core has as many threads as its list has CPUs, white space around the list
/// aside, or two where the list cannot be had or read.
pub proof fn law_threads_are_the_listed_cpus(list: Seq<char>)
    ensures
        threads_per_core(None) == 2,
        match listed_cpus(trimmed(list)) {
            Some(cpus) => threads_per_core(Some(list)) == cpus,
            None => threads_per_core(Some(list)) == 2,
        },
{
}

proof fn lemma_split_joined(front: Seq<char>, back: Seq<char>, sep: char)
    ensures
        split(front.push(sep) + back, sep) == split(front, sep) + split(back, sep),
        split(back, sep).len() > 0,
    decreases back.len(),
{
    let text = front.push(sep) + back;
    if back.len() == 0 {
        assert(text =~= front.push(sep));
        assert(text.drop_last() =~= front);
        assert(split(front, sep).push(seq![]) =~= split(front, sep) + split(back, sep));
    } else {
        let rest = back.drop_last();
        lemma_split_joined(front, rest, sep);
        assert(text.drop_last() =~= front.push(sep) + rest);
        let parts = split(front, sep) + split(rest, sep);
        assert(parts.last() == split(rest, sep).last());
        assert(split(text, sep) =~= split(front, sep) + split(back, sep));
    }
}

proof fn lemma_split_without_separator(text: Seq<char>, sep: char)
    requires
        !text.contains(sep),
    ensures
        split(text, sep) == seq![text],
    decreases text.len(),
{
    if text.len() > 0 {
        let rest = text.drop_last();
        assert forall|c: char| rest.contains(c) implies text.contains(c) by {
            let k = choose|k: int| 0 <= k < rest.len() && rest[k] == c;
            assert(text[k] == c);
        }
        assert(text.contains(text[text.len() - 1]));
        lemma_split_without_separator(rest, sep);
        assert(rest.push(text.last()) =~= text);
        assert(split(text, sep) =~= seq![text]);
    } else {
        assert(text =~= seq![]);
    }
}

/// The text of a number names that CPU, and two such texts with a hyphen between
/// them name all CPUs from the first to the second.
pub proof fn law_items_name_numbers_and_ranges(lo: Seq<char>, hi: Seq<char>)
    requires
        decimal::parsed(lo) is Some,
        decimal::parsed(hi) is Some,
    ensures
        item_range(lo) == Some((decimal::parsed(lo)->0, decimal::parsed(lo)->0)),
        decimal::parsed(lo)->0 <= decimal::parsed(hi)->0 ==> item_range(lo.push('-') + hi) == Some(
            (decimal::parsed(lo)->0, decimal::parsed(hi)->0),
        ),
{
    lemma_number_has_no_separator(lo);
    lemma_number_has_no_separator(hi);
    lemma_split_without_separator(lo, '-');
    lemma_split_without_separator(hi, '-');
    lemma_split_joined(lo, hi, '-');
    assert(seq![lo] + seq![hi] =~= seq![lo, hi]);
}

proof fn lemma_number_has_no_separator(text: Seq<char>)
    requires
        decimal::parsed(text) is Some,
    ensures
        forall|i: int| 0 <= i < text.len() ==> !is_separator(#[trigger] text[i]),
{
    let digits = decimal::unsigned_digits(text);
    assert forall|i: int| 0 <= i < text.len() implies !is_separator(#[trigger] text[i]) by {
        if text[0] == '+' {
            if i > 0 {
                assert(decimal::is_digit(digits[i - 1]));
            }
        } else {
            assert(decimal::is_digit(digits[i]));
        }
    }
}

/// Nothing but a number, or two numbers with a hyphen between them that do not run
/// backwards, is an item.
pub proof fn law_nothing_else_is_an_item(item: Seq<char>)
    requires
        item_range(item) is Some,
    ensures
        ({
            let (lo, hi) = item_range(item)->0;
            &&& lo <= hi
            &&& (decimal::parsed(item) == Some(lo) && lo == hi) || exists|a: Seq<char>, b: Seq<char>|
                item == #[trigger] (a.push('-') + b) && decimal::parsed(a) == Some(lo)
                    && decimal::parsed(b) == Some(hi)
        }),
{
    let ends = split(item, '-');
    law_parts_join_to_the_text(item, '-');
    if ends.len() == 2 {
        assert(ends.drop_last()[0] == ends[0]);
        assert(joined(ends.drop_last(), '-') == ends[0]);
        assert(item == ends[0].push('-') + ends[1]);
    }
}

/// A list is more than a single number where it holds a hyphen or a comma.
pub proof fn law_longer_lists_hold_a_separator(list: Seq<char>)
    ensures
        names_several(list) <==> list.contains('-') || list.contains(','),
{
    if names_several(list) {
        let i = choose|i: int| 0 <= i < list.len() && is_separator(#[trigger] list[i]);
        assert(list.contains(list[i]));
    } else {
        if list.contains('-') {
            let i = choose|i: int| 0 <= i < list.len() && list[i] == '-';
            assert(is_separator(list[i]));
        }
        if list.contains(',') {
            let i = choose|i: int| 0 <= i < list.len() && list[i] == ',';
            assert(is_separator(list[i]));
        }
    }
}

/// Two lists with a comma between them name the CPUs of both. How far apart their
/// numbers are does not matter, and a CPU that both name counts once.
pub proof fn law_joined_lists_name_the_cpus_of_both(front: Seq<char>, back: Seq<char>)
    ensures
        named_cpus(front.push(',') + back) == named_cpus(front) + named_cpus(back),
        is_cpu_list(front.push(',') + back) <==> is_cpu_list(front) && is_cpu_list(back),
        names_several(front.push(',') + back),
{
    let list = front.push(',') + back;
    let items = split(list, ',');
    let a = split(front, ',');
    let b = split(back, ',');
    lemma_split_joined(front, back, ',');
    assert(is_separator(list[front.len() as int]));
    assert forall|k: int| 0 <= k < a.len() implies a[k] == #[trigger] items[k] by {}
    assert forall|k: int| 0 <= k < b.len() implies #[trigger] b[k] == items[a.len() + k] by {}
    assert forall|cpu: int| named_cpus(front).contains(cpu) || named_cpus(back).contains(
        cpu,
    ) implies #[trigger] named_cpus(list).contains(cpu) by {
        if named_cpus(front).contains(cpu) {
            let k = choose|k: int| 0 <= k < a.len() && item_names(#[trigger] a[k], cpu);
            assert(item_names(items[k], cpu));
        } else {
            let k = choose|k: int| 0 <= k < b.len() && item_names(#[trigger] b[k], cpu);
            assert(item_names(items[a.len() + k], cpu));
        }
    }
    assert forall|cpu: int| #[trigger] named_cpus(list).contains(cpu) implies named_cpus(
        front,
    ).contains(cpu) || named_cpus(back).contains(cpu) by {
        let k = choose|k: int| 0 <= k < items.len() && item_names(#[trigger] items[k], cpu);
        if k < a.len() {
            assert(item_names(a[k], cpu));
        } else {
            assert(item_names(b[k - a.len()], cpu));
        }
    }
    assert(named_cpus(list) =~= named_cpus(front) + named_cpus(back));
    if is_cpu_list(list) {
        assert forall|k: int| 0 <= k < a.len() implies item_range(#[trigger] a[k]) is Some by {
            assert(item_range(items[k]) is Some);
        }
        assert forall|k: int| 0 <= k < b.len() implies item_range(#[trigger] b[k]) is Some by {
            assert(item_range(items[a.len() + k]) is Some);
        }
    }
    if is_cpu_list(front) && is_cpu_list(back) {
        assert forall|k: int| 0 <= k < items.len() implies item_range(
            #[trigger] items[k],
        ) is Some by {
            if k < a.len() {
                assert(item_range(a[k]) is Some);
            } else {
                assert(item_range(b[k - a.len()]) is Some);
            }
        }
    }
}

/// A list of two numbers has two CPUs, such as `0,64`, or one where the numbers
/// are the same.
pub proof fn law_two_numbers_are_two_cpus(a: Seq<char>, b: Seq<char>)
    requires
        decimal::parsed(a) is Some,
        decimal::parsed(b) is Some,
    ensures
        listed_cpus(a.push(',') + b) == Some(
            if decimal::parsed(a) == decimal::parsed(b) {
                1int
            } else {
                2
            },
        ),
{
    law_joined_lists_name_the_cpus_of_both(a, b);
    lemma_number_is_a_list(a);
    lemma_number_is_a_list(b);
    let x = decimal::parsed(a)->0 as int;
    let y = decimal::parsed(b)->0 as int;
    assert(named_cpus(a.push(',') + b) =~= set![x].insert(y));
}

/// A list of one range, such as `0-3`, has all its CPUs.
pub proof fn law_a_range_has_all_its_cpus(lo: Seq<char>, hi: Seq<char>)
    requires
        decimal::parsed(lo) is Some,
        decimal::parsed(hi) is Some,
        decimal::parsed(lo)->0 <= decimal::parsed(hi)->0,
    ensures
        is_cpu_list(lo.push('-') + hi),
        forall|cpu: int| #[trigger]
            named_cpus(lo.push('-') + hi).contains(cpu) <==> decimal::parsed(lo)->0 <= cpu
                <= decimal::parsed(hi)->0,
        decimal::parsed(hi)->0 - decimal::parsed(lo)->0 < usize::MAX ==> listed_cpus(
            lo.push('-') + hi,
        ) == Some(decimal::parsed(hi)->0 - decimal::parsed(lo)->0 + 1),
{
    let list = lo.push('-') + hi;
    let first = decimal::parsed(lo)->0 as int;
    let last = decimal::parsed(hi)->0 as int;
    law_items_name_numbers_and_ranges(lo, hi);
    lemma_number_has_no_separator(lo);
    lemma_number_has_no_separator(hi);
    assert(!list.contains(','));
    lemma_split_without_separator(list, ',');
    assert(split(list, ',')[0] == list);
    assert forall|cpu: int| #[trigger] named_cpus(list).contains(cpu) <==> first <= cpu
        <= last by {
        if first <= cpu <= last {
            assert(item_names(split(list, ',')[0], cpu));
        }
    }
    assert(is_separator(list[lo.len() as int]));
    vstd::set_lib::lemma_int_range(first, last + 1);
    assert(named_cpus(list) =~= vstd::set_lib::set_int_range(first, last + 1));
}

/// The number of CPUs in a list of numbers and ranges: a single number is one,
/// two lists with a comma between them that have no CPU in common have as many as
/// both together, and a list that names nothing new adds nothing.
pub proof fn law_lists_count_every_cpu_once(front: Seq<char>, back: Seq<char>)
    requires
        is_cpu_list(front),
        is_cpu_list(back),
    ensures
        named_cpus(front).finite(),
        named_cpus(front).disjoint(named_cpus(back)) && named_cpus(front).len() + named_cpus(
            back,
        ).len() <= usize::MAX ==> listed_cpus(front.push(',') + back) == Some(
            (named_cpus(front).len() + named_cpus(back).len()) as int,
        ),
        named_cpus(back).subset_of(named_cpus(front)) && named_cpus(front).len() <= usize::MAX
            ==> listed_cpus(front.push(',') + back) == Some(named_cpus(front).len() as int),
        names_several(front) && named_cpus(front).len() <= usize::MAX ==> listed_cpus(front)
            == Some(named_cpus(front).len() as int),
        !names_several(front) ==> listed_cpus(front) == Some(1int) && named_cpus(front).len() == 1,
{
    law_joined_lists_name_the_cpus_of_both(front, back);
    lemma_named_is_finite(front);
    lemma_named_is_finite(back);
    let all = named_cpus(front.push(',') + back);
    vstd::set_lib::lemma_set_disjoint_lens(named_cpus(front), named_cpus(back));
    if named_cpus(back).subset_of(named_cpus(front)) {
        assert(all =~= named_cpus(front));
    }
    if !names_several(front) {
        assert forall|c: char| is_separator(c) implies !front.contains(c) by {
            if front.contains(c) {
                let i = choose|i: int| 0 <= i < front.len() && front[i] == c;
                assert(is_separator(front[i]));
            }
        }
        lemma_split_without_separator(front, ',');
        lemma_split_without_separator(front, '-');
        assert(split(front, ',')[0] == front);
        assert(item_range(front) is Some);
        lemma_number_is_a_list(front);
    }
}

proof fn lemma_named_is_finite(list: Seq<char>)
    ensures
        named_cpus(list).finite(),
{
    let all = vstd::set_lib::set_int_range(0, usize::MAX + 1);
    vstd::set_lib::lemma_int_range(0, usize::MAX + 1);
    assert(named_cpus(list).subset_of(all));
    vstd::set_lib::lemma_len_subset(named_cpus(list), all);
}

/// A list with an item that is neither a number nor a range runs from the number
/// at its start to the one at its end, whatever stands between them. It cannot be
/// read where it runs backwards or has more CPUs than a `usize` counts.
pub proof fn law_malformed_lists_run_from_end_to_end(
    list: Seq<char>,
    lo: Seq<char>,
    after: Seq<char>,
    before: Seq<char>,
    hi: Seq<char>,
    a: char,
    b: char,
)
    requires
        !is_cpu_list(list),
        is_separator(a),
        is_separator(b),
        list == lo.push(a) + after,
        list == before.push(b) + hi,
        decimal::parsed(lo) is Some,
        decimal::parsed(hi) is Some,
    ensures
        listed_cpus(list) == if 0 <= decimal::parsed(hi)->0 - decimal::parsed(lo)->0 < usize::MAX {
            Some(decimal::parsed(hi)->0 - decimal::parsed(lo)->0 + 1)
        } else {
            None
        },
{
    lemma_number_has_no_separator(lo);
    lemma_number_has_no_separator(hi);
    assert(is_separator(list[lo.len() as int]));
    lemma_split_without_separator(lo, ',');
    lemma_split_without_separator(lo, '-');
    lemma_split_without_separator(hi, ',');
    lemma_split_without_separator(hi, '-');
    let items = split(list, ',');
    if a == ',' {
        lemma_split_joined(lo, after, ',');
        assert(items[0] == lo);
    } else {
        lemma_split_after_prefix(lo.push('-'), after, ',');
        let rest = split(after, ',')[0];
        lemma_split_joined(lo, rest, '-');
        assert(items[0] == lo.push('-') + rest);
    }
    assert(split(items[0], '-')[0] == lo);
    if b == ',' {
        lemma_split_joined(before, hi, ',');
        assert(items.last() == hi);
    } else {
        let tail = seq!['-'] + hi;
        assert(list =~= before + tail);
        lemma_split_before_suffix(before, tail, ',');
        let rest = split(before, ',').last();
        assert(rest + tail =~= rest.push('-') + hi);
        lemma_split_joined(rest, hi, '-');
        assert(items.last() == rest.push('-') + hi);
    }
    assert(split(items.last(), '-').last() == hi);
}

proof fn lemma_split_after_prefix(prefix: Seq<char>, text: Seq<char>, sep: char)
    requires
        !prefix.contains(sep),
    ensures
        split(prefix + text, sep).len() == split(text, sep).len() > 0,
        split(prefix + text, sep)[0] == prefix + split(text, sep)[0],
    decreases text.len(),
{
    if text.len() == 0 {
        assert(prefix + text =~= prefix);
        lemma_split_without_separator(prefix, sep);
        assert(prefix + split(text, sep)[0] =~= prefix);
    } else {
        let rest = text.drop_last();
        assert((prefix + text).drop_last() =~= prefix + rest);
        lemma_split_after_prefix(prefix, rest, sep);
        if text.last() != sep && split(rest, sep).len() == 1 {
            assert(split(prefix + text, sep)[0] =~= prefix + split(text, sep)[0]);
        }
    }
}

proof fn lemma_split_before_suffix(text: Seq<char>, suffix: Seq<char>, sep: char)
    requires
        !suffix.contains(sep),
    ensures
        split(text + suffix, sep).len() == split(text, sep).len() > 0,
        split(text + suffix, sep).last() == split(text, sep).last() + suffix,
    decreases suffix.len(),
{
    if suffix.len() == 0 {
        assert(text + suffix =~= text);
        law_parts_join_to_the_text(text, sep);
        assert(split(text, sep).last() + suffix =~= split(text, sep).last());
    } else {
        let rest = suffix.drop_last();
        assert forall|c: char| rest.contains(c) implies suffix.contains(c) by {
            let k = choose|k: int| 0 <= k < rest.len() && rest[k] == c;
            assert(suffix[k] == c);
        }
        assert(suffix.contains(suffix[suffix.len() - 1]));
        assert((text + suffix).drop_last() =~= text + rest);
        lemma_split_before_suffix(text, rest, sep);
        assert(split(text, sep).last() + suffix =~= (split(text, sep).last() + rest).push(
            suffix.last(),
        ));
    }
}

proof fn lemma_number_is_a_list(text: Seq<char>)
    requires
        decimal::parsed(text) is Some,
    ensures
        is_cpu_list(text),
        named_cpus(text) == set![decimal::parsed(text)->0 as int],
{
    law_items_name_numbers_and_ranges(text, text);
    lemma_number_has_no_separator(text);
    lemma_split_without_separator(text, ',');
    let n = decimal::parsed(text)->0 as int;
    assert(split(text, ',')[0] == text);
    assert(item_names(split(text, ',')[0], n));
    assert(named_cpus(text) =~= set![n]);
}

/// Number of threads of a pool: what is configured, if that is a number, and
/// else the number of available CPUs, or 1 where that cannot be had.
pub fn pool_size(configured: Option<&str>, available: Option<usize>) -> (size: usize)
    ensures
        size == match configured {
            Some(text) => match decimal::parsed(text@) {
                Some(size) => size,
                None => match available {
                    Some(cpus) => cpus,
                    None => 1,
                },
            },
            None => match available {
                Some(cpus) => cpus,
                None => 1,
            },
        },
{
    let fallback: usize = match available {
        Some(cpus) => cpus,
        None => 1,
    };
    match configured {
        Some(text) => match decimal::parse(text) {
            Some(size) => size,
            None => fallback,
        },
        None => fallback,
    }
}

} // verus!

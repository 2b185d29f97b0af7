//! What the kernel tells about the system: processors, memory, file systems, arrays and
//! temperatures.
//!
//! The functions take the texts of the kernel's tables and the numbers of its system calls.
use crate::single::Single;
use crate::text;
use vstd::prelude::*;
use vstd::string::StringExecFns;

verus! {

/// The time a processor has spent, in ticks.
#[derive(Debug, Clone, Copy, PartialEq, Eq, Structural)]
pub struct CpuCounters {
    pub total: u64,
    pub idle: u64,
}

#[derive(Debug, Clone, PartialEq, Eq)]
pub struct MemoryInfo {
    pub total_kib: u64,
    pub available_kib: u64,
}

#[derive(Debug, Clone, PartialEq, Eq)]
pub struct FilesystemInfo {
    pub source: String,
    pub mount_point: String,
    pub total_kib: u64,
    pub used_kib: u64,
}

#[derive(Debug, Clone, PartialEq, Eq)]
pub struct RaidInfo {
    pub name: String,
    pub level: String,
    pub state: String,
    pub devices: u32,
    pub degraded: u32,
}

/// The counters of processors by their names, in the order of the names.
#[derive(Debug, Clone, PartialEq, Eq)]
pub struct CpuTable {
    entries: Vec<(String, CpuCounters)>,
}

/// The names and counters of a [`CpuTable`].
pub type CpuEntries = Seq<(Seq<char>, CpuCounters)>;

impl View for CpuTable {
    type V = CpuEntries;

    closed spec fn view(&self) -> CpuEntries {
        Seq::new(self.entries@.len(), |i: int| (self.entries@[i].0@, self.entries@[i].1))
    }
}

/// The row of a processor whose counters are no numbers.
#[derive(Debug, Clone, PartialEq, Eq)]
pub struct StatError {
    pub row: String,
}

/// The entries with the counters of one processor, new or replaced.
pub open spec fn put(entries: CpuEntries, name: Seq<char>, counters: CpuCounters) -> CpuEntries
    decreases entries.len(),
{
    if entries.len() == 0 || text::before(entries.last().0, name) {
        entries.push((name, counters))
    } else if entries.last().0 == name {
        entries.drop_last().push((name, counters))
    } else {
        put(entries.drop_last(), name, counters).push(entries.last())
    }
}

/// Whether the names are in order, each of them once.
pub open spec fn in_order(entries: CpuEntries) -> bool {
    forall|i: int, j: int|
        0 <= i < j < entries.len() ==> text::before(
            (#[trigger] entries[i]).0,
            (#[trigger] entries[j]).0,
        )
}

/// The counters of a processor.
pub open spec fn counters_of(entries: CpuEntries, name: Seq<char>) -> Option<CpuCounters>
    decreases entries.len(),
{
    if entries.len() == 0 {
        None
    } else if entries.last().0 == name {
        Some(entries.last().1)
    } else {
        counters_of(entries.drop_last(), name)
    }
}

/// Whether `row` is that of one processor; the row that sums all of them up is not.
pub open spec fn is_cpu_row(row: Seq<char>) -> bool {
    let name = text::words_of(row)[0];
    text::begins(row, "cpu"@) && name.len() > 3 && text::all_digits(name.skip(3))
}

/// The counters in words, if all of them are numbers.
pub open spec fn numbers_of(words: Seq<Seq<char>>) -> Option<Seq<u64>>
    decreases words.len(),
{
    if words.len() == 0 {
        Some(seq![])
    } else {
        match (
            numbers_of(words.drop_last()),
            text::number(words.last(), u64::MAX as nat),
        ) {
            (Some(numbers), Some(number)) => Some(numbers.push(number as u64)),
            _ => None,
        }
    }
}

/// The sum of counters.
pub open spec fn sum_of(numbers: Seq<u64>) -> nat
    decreases numbers.len(),
{
    if numbers.len() == 0 {
        0
    } else {
        sum_of(numbers.drop_last()) + numbers.last() as nat
    }
}

/// The counters of a row.
pub open spec fn row_numbers(row: Seq<char>) -> Option<Seq<u64>> {
    numbers_of(text::words_of(row).skip(1))
}

/// The entries after one row, or the row if its counters are no numbers. Rows with fewer than
/// five counters say nothing.
pub open spec fn with_row(entries: CpuEntries, row: Seq<char>) -> Result<CpuEntries, Seq<char>> {
    if !is_cpu_row(row) {
        Ok(entries)
    } else {
        match row_numbers(row) {
            None => Err(row),
            Some(numbers) => if numbers.len() < 5 {
                Ok(entries)
            } else {
                Ok(
                    put(
                        entries,
                        text::words_of(row)[0],
                        CpuCounters {
                            total: sum_of(numbers) as u64,
                            idle: (numbers[3] + numbers[4]) as u64,
                        },
                    ),
                )
            },
        }
    }
}

/// The entries of rows, or the first faulty row.
pub open spec fn entries_of(rows: Seq<Seq<char>>) -> Result<CpuEntries, Seq<char>>
    decreases rows.len(),
{
    if rows.len() == 0 {
        Ok(seq![])
    } else {
        match entries_of(rows.drop_last()) {
            Err(row) => Err(row),
            Ok(entries) => with_row(entries, rows.last()),
        }
    }
}

/// What `/proc/stat` says about the processors.
pub open spec fn read_stat(input: Seq<char>) -> Result<CpuEntries, Seq<char>> {
    entries_of(text::lines_of(input))
}

/// Whether the sum of the counters of a row can be held.
pub open spec fn row_fits(row: Seq<char>) -> bool {
    is_cpu_row(row) && row_numbers(row) is Some && row_numbers(row)->0.len() >= 5 ==> sum_of(
        row_numbers(row)->0,
    ) <= u64::MAX
}

/// Whether the sums of the rows before the first faulty one can be held.
pub open spec fn rows_fit(rows: Seq<Seq<char>>) -> bool {
    forall|n: int|
        0 <= n < rows.len() && entries_of(rows.take(n)) is Ok ==> row_fits(#[trigger] rows[n])
}

proof fn lemma_sum_prefix(numbers: Seq<u64>, n: int)
    requires
        0 <= n <= numbers.len(),
    ensures
        sum_of(numbers.take(n)) <= sum_of(numbers),
    decreases numbers.len(),
{
    if n == numbers.len() {
        assert(numbers.take(n) =~= numbers);
    } else {
        assert(numbers.drop_last().take(n) =~= numbers.take(n));
        lemma_sum_prefix(numbers.drop_last(), n);
    }
}

/// Two of the counters are at most all of them.
proof fn lemma_sum_of_two(numbers: Seq<u64>)
    requires
        numbers.len() >= 5,
    ensures
        numbers[3] + numbers[4] <= sum_of(numbers),
{
    lemma_sum_prefix(numbers, 5);
    let five = numbers.take(5);
    assert(five.last() == numbers[4]);
    assert(five.drop_last().last() == numbers[3]);
    reveal_with_fuel(sum_of, 3);
}

/// The sum of the counters, if it can be held.
fn add_up(numbers: &Vec<u64>) -> (r: Option<u64>)
    ensures
        match r {
            Some(sum) => sum == sum_of(numbers@),
            None => sum_of(numbers@) > u64::MAX,
        },
{
    let mut sum: u64 = 0;
    let mut i: usize = 0;
    assert(numbers@.take(0) =~= Seq::empty());
    while i < numbers.len()
        invariant
            i <= numbers@.len(),
            sum == sum_of(numbers@.take(i as int)),
        decreases numbers@.len() - i,
    {
        proof {
            assert(numbers@.take(i + 1).drop_last() =~= numbers@.take(i as int));
            lemma_sum_prefix(numbers@, i + 1);
        }
        match sum.checked_add(numbers[i]) {
            Some(more) => {
                sum = more;
            },
            None => {
                return None;
            },
        }
        i += 1;
    }
    assert(numbers@.take(i as int) =~= numbers@);
    Some(sum)
}

/// A word that is no number spoils all of them.
proof fn lemma_no_numbers(words: Seq<Seq<char>>, n: int)
    requires
        0 <= n <= words.len(),
        numbers_of(words.take(n)) is None,
    ensures
        numbers_of(words) is None,
    decreases words.len(),
{
    if n == words.len() {
        assert(words.take(n) =~= words);
    } else {
        assert(words.drop_last().take(n) =~= words.take(n));
        lemma_no_numbers(words.drop_last(), n);
    }
}

/// The counters of a row, behind its name.
fn parse_numbers(words: &Vec<&[char]>) -> (r: Option<Vec<u64>>)
    requires
        words@.len() > 0,
    ensures
        match r {
            Some(numbers) => numbers_of(text::views(words@).skip(1)) == Some(numbers@),
            None => numbers_of(text::views(words@).skip(1)) is None,
        },
{
    let ghost all = text::views(words@).skip(1);
    let mut numbers: Vec<u64> = Vec::new();
    let mut i: usize = 1;
    assert(all.take(0) =~= Seq::empty());
    while i < words.len()
        invariant
            all == text::views(words@).skip(1),
            1 <= i <= words@.len(),
            numbers_of(all.take(i - 1)) == Some(numbers@),
        decreases words@.len() - i,
    {
        proof {
            assert(all.take(i as int).drop_last() =~= all.take(i - 1));
            assert(all.take(i as int).last() == words@[i as int]@);
        }
        match text::parse_u64(words[i]) {
            Some(number) => {
                numbers.push(number);
            },
            None => {
                proof {
                    lemma_no_numbers(all, i as int);
                }
                return None;
            },
        }
        i += 1;
    }
    assert(all.take(i - 1) =~= all);
    Some(numbers)
}

/// What a row says.
enum Row<'a> {
    Nothing,
    Faulty,
    Counters { name: &'a [char], numbers: Vec<u64> },
}

proof fn lemma_row_has_name(row: Seq<char>)
    requires
        text::begins(row, "cpu"@),
    ensures
        text::words_of(row).len() > 0,
{
    reveal_strlit("cpu");
    assert(row.take(3)[0] == row[0]);
    assert("cpu"@[0] == 'c');
}

fn read_row<'a>(row: &'a [char]) -> (r: Row<'a>)
    ensures
        match r {
            Row::Nothing => is_cpu_row(row@) ==> row_numbers(row@) is Some && row_numbers(
                row@,
            )->0.len() < 5,
            Row::Faulty => is_cpu_row(row@) && row_numbers(row@) is None,
            Row::Counters { name, numbers } => is_cpu_row(row@) && name@ == text::words_of(row@)[0]
                && row_numbers(row@) == Some(numbers@) && numbers@.len() >= 5,
        },
{
    if !text::starts_with(row, "cpu") {
        return Row::Nothing;
    }
    proof {
        lemma_row_has_name(row@);
    }
    let words = text::split_whitespace(row);
    assert(text::views(words@).len() == words@.len());
    let name = words[0];
    assert(name@ == text::words_of(row@)[0]);
    if name.len() <= 3 {
        return Row::Nothing;
    }
    let mut i: usize = 3;
    while i < name.len()
        invariant
            name@ == text::words_of(row@)[0],
            3 <= i <= name@.len(),
            forall|k: int| 3 <= k < i ==> text::is_digit(#[trigger] name@[k]),
        decreases name@.len() - i,
    {
        if !('0' <= name[i] && name[i] <= '9') {
            assert(!text::is_digit(name@.skip(3)[i - 3]));
            return Row::Nothing;
        }
        i += 1;
    }
    assert forall|k: int| 0 <= k < name@.skip(3).len() implies text::is_digit(
        #[trigger] name@.skip(3)[k],
    ) by {
        assert(text::is_digit(name@[k + 3]));
    }
    match parse_numbers(&words) {
        None => Row::Faulty,
        Some(numbers) => if numbers.len() < 5 {
            Row::Nothing
        } else {
            Row::Counters { name, numbers }
        },
    }
}

proof fn lemma_first_faulty_row(rows: Seq<Seq<char>>, n: int)
    requires
        0 <= n <= rows.len(),
        entries_of(rows.take(n)) is Err,
    ensures
        entries_of(rows) == entries_of(rows.take(n)),
    decreases rows.len(),
{
    if n == rows.len() {
        assert(rows.take(n) =~= rows);
    } else {
        assert(rows.drop_last().take(n) =~= rows.take(n));
        lemma_first_faulty_row(rows.drop_last(), n);
    }
}

/// The outcome of reading a table.
pub open spec fn outcome(r: Result<CpuTable, StatError>) -> Result<CpuEntries, Seq<char>> {
    match r {
        Ok(table) => Ok(table@),
        Err(error) => Err(error.row@),
    }
}

impl CpuTable {
    fn new() -> (r: CpuTable)
        ensures
            r@ == CpuEntries::empty(),
    {
        let r = CpuTable { entries: Vec::new() };
        assert(r@ =~= CpuEntries::empty());
        r
    }

    /// How many processors there are.
    pub fn len(&self) -> (r: usize)
        ensures
            r == self@.len(),
    {
        self.entries.len()
    }

    /// The `index`-th processor in the order of the names.
    pub fn entry(&self, index: usize) -> (r: (&str, CpuCounters))
        requires
            index < self@.len(),
        ensures
            (r.0@, r.1) == self@[index as int],
    {
        (self.entries[index].0.as_str(), self.entries[index].1)
    }

    /// The counters of a processor.
    pub fn get(&self, name: &str) -> (r: Option<CpuCounters>)
        ensures
            r == counters_of(self@, name@),
    {
        let chars = text::to_chars(name);
        let mut i = self.entries.len();
        assert(self@.take(i as int) =~= self@);
        while i > 0
            invariant
                chars@ == name@,
                i <= self.entries@.len(),
                counters_of(self@, name@) == counters_of(self@.take(i as int), name@),
            decreases i,
        {
            proof {
                assert(self@.take(i as int).last() == self@[i - 1]);
                assert(self@.take(i as int).drop_last() =~= self@.take(i - 1));
            }
            if text::reads(chars.as_slice(), self.entries[i - 1].0.as_str()) {
                return Some(self.entries[i - 1].1);
            }
            i -= 1;
        }
        None
    }

    /// Adds the counters of a processor or replaces them.
    fn put(&mut self, name: &[char], counters: CpuCounters)
        ensures
            final(self)@ == put(old(self)@, name@, counters),
    {
        let ghost start = self@;
        let mut i = self.entries.len();
        assert(start.take(i as int) =~= start);
        assert(start.skip(i as int) =~= CpuEntries::empty());
        while i > 0
            invariant
                start == old(self)@,
                self@ == start,
                i <= self.entries@.len(),
                put(start, name@, counters) == put(start.take(i as int), name@, counters)
                    + start.skip(i as int),
            ensures
                i > 0 ==> text::before(start[i - 1].0, name@),
            decreases i,
        {
            let ghost head = start.take(i as int);
            assert(head.last() == start[i - 1]);
            let last = text::to_chars(self.entries[i - 1].0.as_str());
            if text::precedes(last.as_slice(), name) {
                break;
            }
            if text::reads(name, self.entries[i - 1].0.as_str()) {
                self.entries.set(i - 1, (text::to_text(name), counters));
                assert(self@ =~= head.drop_last().push((name@, counters)) + start.skip(i as int));
                return;
            }
            proof {
                assert(head.drop_last() =~= start.take(i - 1));
                assert(seq![head.last()] + start.skip(i as int) =~= start.skip(i - 1));
                let placed = put(head.drop_last(), name@, counters);
                assert(placed.push(head.last()) + start.skip(i as int) =~= placed + start.skip(
                    i - 1,
                ));
            }
            i -= 1;
        }
        self.entries.insert(i, (text::to_text(name), counters));
        assert(i > 0 ==> start.take(i as int).last() == start[i - 1]);
        assert(self@ =~= start.take(i as int).push((name@, counters)) + start.skip(i as int));
    }
}

/// Whether the sums of the counters in `/proc/stat` can be held.
pub fn stat_fits(input: &str) -> (r: bool)
    ensures
        r == rows_fit(text::lines_of(input@)),
{
    let chars = text::to_chars(input);
    let lines = text::lines(chars.as_slice());
    let ghost rows = text::views(lines@);
    let mut i: usize = 0;
    assert(rows.take(0) =~= Seq::empty());
    while i < lines.len()
        invariant
            rows == text::views(lines@),
            rows == text::lines_of(input@),
            i <= lines@.len(),
            entries_of(rows.take(i as int)) is Ok,
            forall|n: int| 0 <= n < i ==> row_fits(#[trigger] rows[n]),
        decreases lines@.len() - i,
    {
        proof {
            assert(rows.take(i + 1).drop_last() =~= rows.take(i as int));
            assert(rows.take(i + 1).last() == lines@[i as int]@);
        }
        match read_row(lines[i]) {
            Row::Nothing => {},
            Row::Faulty => {
                assert forall|n: int|
                    0 <= n < rows.len() && entries_of(rows.take(n)) is Ok implies row_fits(
                    #[trigger] rows[n],
                ) by {
                    if n > i {
                        assert(rows.take(n).take(i + 1) =~= rows.take(i + 1));
                        lemma_first_faulty_row(rows.take(n), i + 1);
                    }
                }
                return true;
            },
            Row::Counters { name: _, numbers } => {
                if add_up(&numbers).is_none() {
                    assert(!row_fits(rows[i as int]));
                    return false;
                }
            },
        }
        i += 1;
    }
    true
}

/// Reads the counters of the processors from the text of `/proc/stat`.
pub fn parse_proc_stat(input: &str) -> (r: Result<CpuTable, StatError>)
    requires
        rows_fit(text::lines_of(input@)),
    ensures
        outcome(r) == read_stat(input@),
{
    let chars = text::to_chars(input);
    let lines = text::lines(chars.as_slice());
    let ghost rows = text::views(lines@);
    let mut table = CpuTable::new();
    let mut i: usize = 0;
    assert(rows.take(0) =~= Seq::empty());
    while i < lines.len()
        invariant
            rows == text::views(lines@),
            rows == text::lines_of(input@),
            rows_fit(rows),
            i <= lines@.len(),
            entries_of(rows.take(i as int)) == Ok::<CpuEntries, Seq<char>>(table@),
        decreases lines@.len() - i,
    {
        proof {
            assert(rows.take(i + 1).drop_last() =~= rows.take(i as int));
            assert(rows.take(i + 1).last() == lines@[i as int]@);
            assert(row_fits(rows[i as int]));
        }
        match read_row(lines[i]) {
            Row::Nothing => {},
            Row::Faulty => {
                proof {
                    lemma_first_faulty_row(rows, i + 1);
                }
                return Err(StatError { row: text::to_text(lines[i]) });
            },
            Row::Counters { name, numbers } => {
                proof {
                    lemma_sum_of_two(numbers@);
                }
                let total = match add_up(&numbers) {
                    Some(total) => total,
                    None => 0,
                };
                table.put(name, CpuCounters { total, idle: numbers[3] + numbers[4] });
            },
        }
        i += 1;
    }
    assert(rows.take(i as int) =~= rows);
    Ok(table)
}

/// The share of the time between two readings in which a processor was busy, in percent.
pub open spec fn busy_percent(first: CpuCounters, second: CpuCounters) -> int {
    let total = increase(first.total, second.total);
    if total == 0 {
        0
    } else {
        busy(first, second) * 100 / total
    }
}

/// How much a counter has grown.
pub open spec fn increase(first: u64, second: u64) -> int {
    if second > first {
        second - first
    } else {
        0
    }
}

/// The ticks between two readings in which a processor was busy.
pub open spec fn busy(first: CpuCounters, second: CpuCounters) -> int {
    let total = increase(first.total, second.total);
    let idle = increase(first.idle, second.idle);
    if total > idle {
        total - idle
    } else {
        0
    }
}

/// The usage of the processors that are in both tables, in the order of the names.
pub open spec fn usages(first: CpuEntries, second: CpuEntries) -> Seq<(Seq<char>, u8)>
    decreases first.len(),
{
    if first.len() == 0 {
        seq![]
    } else {
        let rest = usages(first.drop_last(), second);
        match counters_of(second, first.last().0) {
            Some(counters) => rest.push(
                (first.last().0, busy_percent(first.last().1, counters) as u8),
            ),
            None => rest,
        }
    }
}

/// Whether a hundred times the busy ticks can be held.
pub open spec fn usages_fit(first: CpuEntries, second: CpuEntries) -> bool {
    forall|i: int|
        0 <= i < first.len() && counters_of(second, (#[trigger] first[i]).0) is Some ==> busy(
            first[i].1,
            counters_of(second, first[i].0)->0,
        ) * 100 <= u64::MAX
}

/// The names and percentages of a list.
pub open spec fn usage_views(list: Seq<(String, u8)>) -> Seq<(Seq<char>, u8)> {
    Seq::new(list.len(), |i: int| (list[i].0@, list[i].1))
}

/// The ticks between two readings in which a processor was busy.
fn busy_ticks(first: CpuCounters, second: CpuCounters) -> (r: u64)
    ensures
        r == busy(first, second),
{
    let total = second.total.saturating_sub(first.total);
    let idle = second.idle.saturating_sub(first.idle);
    total.saturating_sub(idle)
}

/// Whether [`cpu_usage`] can calculate with the counters.
pub fn usage_fits(before: &CpuTable, after: &CpuTable) -> (r: bool)
    ensures
        r == usages_fit(before@, after@),
{
    let mut i: usize = 0;
    while i < before.len()
        invariant
            i <= before@.len(),
            forall|k: int|
                0 <= k < i && counters_of(after@, (#[trigger] before@[k]).0) is Some ==> busy(
                    before@[k].1,
                    counters_of(after@, before@[k].0)->0,
                ) * 100 <= u64::MAX,
        decreases before@.len() - i,
    {
        let (name, first) = before.entry(i);
        if let Some(second) = after.get(name) {
            if busy_ticks(first, second) > u64::MAX / 100 {
                assert(counters_of(after@, before@[i as int].0) is Some);
                return false;
            }
        }
        i += 1;
    }
    true
}

/// The usage of the processors between two readings, in percent.
pub fn cpu_usage(before: &CpuTable, after: &CpuTable) -> (r: Vec<(String, u8)>)
    requires
        usages_fit(before@, after@),
    ensures
        usage_views(r@) == usages(before@, after@),
{
    let mut list: Vec<(String, u8)> = Vec::new();
    let mut i: usize = 0;
    assert(before@.take(0) =~= CpuEntries::empty());
    assert(usage_views(list@) =~= Seq::empty());
    while i < before.len()
        invariant
            usages_fit(before@, after@),
            i <= before@.len(),
            usage_views(list@) == usages(before@.take(i as int), after@),
        decreases before@.len() - i,
    {
        let ghost done = list@;
        proof {
            assert(before@.take(i + 1).drop_last() =~= before@.take(i as int));
            assert(before@.take(i + 1).last() == before@[i as int]);
        }
        let (name, first) = before.entry(i);
        if let Some(second) = after.get(name) {
            let total = second.total.saturating_sub(first.total);
            let busy_ticks = busy_ticks(first, second);
            let usage: u64 = if total == 0 {
                0
            } else {
                proof {
                    let share = busy(first, second);
                    vstd::arithmetic::div_mod::lemma_div_is_ordered(
                        share * 100,
                        total * 100,
                        total as int,
                    );
                    vstd::arithmetic::div_mod::lemma_div_multiples_vanish(100, total as int);
                    assert(total * 100 == 100 * total);
                }
                busy_ticks * 100 / total
            };
            list.push((text::to_text(text::to_chars(name).as_slice()), usage as u8));
            assert(usage_views(list@) =~= usage_views(done).push(
                (before@[i as int].0, usage as u8),
            ));
        }
        i += 1;
    }
    assert(before@.take(i as int) =~= before@);
    list
}

/// A processor's counters are those that were put last, and the others keep theirs.
pub proof fn law_put(entries: CpuEntries, name: Seq<char>, counters: CpuCounters, other: Seq<char>)
    requires
        in_order(entries),
    ensures
        in_order(put(entries, name, counters)),
        counters_of(put(entries, name, counters), name) == Some(counters),
        other != name ==> counters_of(put(entries, name, counters), other) == counters_of(
            entries,
            other,
        ),
    decreases entries.len(),
{
    let after = put(entries, name, counters);
    if entries.len() > 0 {
        let last = entries.last();
        let head = entries.drop_last();
        assert(in_order(head));
        text::lemma_before_is_total(last.0, name);
        if text::before(last.0, name) {
            assert(after.drop_last() =~= entries);
            assert forall|i: int, j: int| 0 <= i < j < after.len() implies text::before(
                (#[trigger] after[i]).0,
                (#[trigger] after[j]).0,
            ) by {
                if j == entries.len() && i < entries.len() - 1 {
                    assert(text::before(entries[i].0, last.0));
                    text::lemma_before_is_transitive(entries[i].0, last.0, name);
                }
            }
        } else if last.0 == name {
            assert(after.drop_last() =~= head);
            assert forall|i: int, j: int| 0 <= i < j < after.len() implies text::before(
                (#[trigger] after[i]).0,
                (#[trigger] after[j]).0,
            ) by {
                assert(text::before(entries[i].0, entries[j].0));
            }
        } else {
            law_put(head, name, counters, other);
            let placed = put(head, name, counters);
            assert(after.drop_last() =~= placed);
            lemma_put_names(head, name, counters);
            assert forall|i: int, j: int| 0 <= i < j < after.len() implies text::before(
                (#[trigger] after[i]).0,
                (#[trigger] after[j]).0,
            ) by {
                if j == placed.len() {
                    if placed[i].0 != name {
                        let k = choose|k: int|
                            0 <= k < head.len() && (#[trigger] head[k]).0 == placed[i].0;
                        assert(text::before(entries[k].0, entries[entries.len() - 1].0));
                    }
                } else {
                    assert(text::before(placed[i].0, placed[j].0));
                }
            }
        }
    } else {
        assert(after.drop_last() =~= entries);
    }
}

/// The names in a table are those that were there, and the one that was put.
proof fn lemma_put_names(entries: CpuEntries, name: Seq<char>, counters: CpuCounters)
    ensures
        forall|i: int|
            0 <= i < put(entries, name, counters).len() ==> {
                let entry = #[trigger] put(entries, name, counters)[i];
                entry.0 == name || exists|k: int|
                    0 <= k < entries.len() && (#[trigger] entries[k]).0 == entry.0
            },
    decreases entries.len(),
{
    let after = put(entries, name, counters);
    if entries.len() > 0 {
        let head = entries.drop_last();
        lemma_put_names(head, name, counters);
        assert forall|i: int| 0 <= i < after.len() implies {
            let entry = #[trigger] after[i];
            entry.0 == name || exists|k: int|
                0 <= k < entries.len() && (#[trigger] entries[k]).0 == entry.0
        } by {
            if text::before(entries.last().0, name) {
                if i < entries.len() {
                    assert(entries[i].0 == after[i].0);
                }
            } else if entries.last().0 == name {
                if i < head.len() {
                    assert(entries[i].0 == after[i].0);
                }
            } else {
                let placed = put(head, name, counters);
                if i < placed.len() {
                    assert(after[i] == placed[i]);
                    if placed[i].0 != name {
                        let k = choose|k: int|
                            0 <= k < head.len() && (#[trigger] head[k]).0 == placed[i].0;
                        assert(entries[k].0 == after[i].0);
                    }
                } else {
                    assert(entries[entries.len() - 1].0 == after[i].0);
                }
            }
        }
    }
}

/// A table that was read has its processors in the order of their names, each of them once.
pub proof fn law_table_is_in_order(rows: Seq<Seq<char>>)
    ensures
        entries_of(rows) matches Ok(entries) ==> in_order(entries),
    decreases rows.len(),
{
    if rows.len() > 0 {
        law_table_is_in_order(rows.drop_last());
        let row = rows.last();
        if let Ok(entries) = entries_of(rows.drop_last()) {
            if is_cpu_row(row) && row_numbers(row) is Some && row_numbers(row)->0.len() >= 5 {
                let numbers = row_numbers(row)->0;
                let name = text::words_of(row)[0];
                law_put(
                    entries,
                    name,
                    CpuCounters {
                        total: sum_of(numbers) as u64,
                        idle: (numbers[3] + numbers[4]) as u64,
                    },
                    name,
                );
            }
        }
    }
}

/// A usage is a percentage, and none where no time has passed.
pub proof fn law_usage_is_percentage(first: CpuCounters, second: CpuCounters)
    ensures
        0 <= busy_percent(first, second) <= 100,
        second.total <= first.total ==> busy_percent(first, second) == 0,
{
    let total = increase(first.total, second.total);
    let share = busy(first, second);
    if total > 0 {
        vstd::arithmetic::div_mod::lemma_div_is_ordered(share * 100, total * 100, total);
        vstd::arithmetic::div_mod::lemma_div_multiples_vanish(100, total);
        vstd::arithmetic::div_mod::lemma_div_pos_is_pos(share * 100, total);
        assert(total * 100 == 100 * total);
    }
}

/// Why the text says nothing about the memory.
#[derive(Debug, Clone, Copy, PartialEq, Eq, Structural)]
pub enum MemoryError {
    /// `MemTotal` is missing.
    MissingTotal,
}

/// The value that a line gives to `key`.
pub open spec fn line_value(line: Seq<char>, key: Seq<char>) -> Option<u64> {
    match text::split_first(line, ':') {
        Some((name, rest)) => {
            let words = text::words_of(rest);
            if name == key && words.len() > 0 {
                match text::number(words[0], u64::MAX as nat) {
                    Some(value) => Some(value as u64),
                    None => None,
                }
            } else {
                None
            }
        },
        None => None,
    }
}

/// The value that the lines give to `key`; the last one counts.
pub open spec fn value_in(lines: Seq<Seq<char>>, key: Seq<char>) -> Option<u64>
    decreases lines.len(),
{
    if lines.len() == 0 {
        None
    } else if line_value(lines.last(), key) is Some {
        line_value(lines.last(), key)
    } else {
        value_in(lines.drop_last(), key)
    }
}

/// A value, or zero.
pub open spec fn or_zero(value: Option<u64>) -> u64 {
    match value {
        Some(value) => value,
        None => 0,
    }
}

/// The memory that can be taken, where the kernel does not say it itself.
pub open spec fn unused(lines: Seq<Seq<char>>) -> int {
    or_zero(value_in(lines, "MemFree"@)) + or_zero(value_in(lines, "Buffers"@)) + or_zero(
        value_in(lines, "Cached"@),
    )
}

/// What `/proc/meminfo` says: all of the memory, and what can be taken of it.
pub open spec fn read_meminfo(lines: Seq<Seq<char>>) -> Result<(u64, int), MemoryError> {
    match value_in(lines, "MemTotal"@) {
        None => Err(MemoryError::MissingTotal),
        Some(total) => Ok(
            (
                total,
                match value_in(lines, "MemAvailable"@) {
                    Some(available) => available as int,
                    None => unused(lines),
                },
            ),
        ),
    }
}

/// Whether the memory that can be taken can be held.
pub open spec fn memory_fits(lines: Seq<Seq<char>>) -> bool {
    read_meminfo(lines) matches Ok(memory) ==> memory.1 <= u64::MAX
}

/// The value that a line gives to `key`.
fn read_value(line: &[char], key: &str) -> (r: Option<u64>)
    ensures
        r == line_value(line@, key@),
{
    match text::split_once(line, ':') {
        Some((name, rest)) => {
            let words = text::split_whitespace(rest);
            assert(text::views(words@).len() == words@.len());
            if text::reads(name, key) && words.len() > 0 {
                assert(text::views(words@)[0] == words@[0]@);
                text::parse_u64(words[0])
            } else {
                None
            }
        },
        None => None,
    }
}

/// The value that the lines give to `key`.
fn last_value(lines: &Vec<&[char]>, key: &str) -> (r: Option<u64>)
    ensures
        r == value_in(text::views(lines@), key@),
{
    let ghost all = text::views(lines@);
    let mut i = lines.len();
    assert(all.take(i as int) =~= all);
    while i > 0
        invariant
            all == text::views(lines@),
            i <= lines@.len(),
            value_in(all, key@) == value_in(all.take(i as int), key@),
        decreases i,
    {
        proof {
            assert(all.take(i as int).last() == lines@[i - 1]@);
            assert(all.take(i as int).drop_last() =~= all.take(i - 1));
        }
        let value = read_value(lines[i - 1], key);
        if value.is_some() {
            return value;
        }
        i -= 1;
    }
    None
}

fn value_or_zero(value: Option<u64>) -> (r: u64)
    ensures
        r == or_zero(value),
{
    match value {
        Some(value) => value,
        None => 0,
    }
}

/// Whether [`parse_meminfo`] can hold the memory that can be taken.
pub fn meminfo_fits(input: &str) -> (r: bool)
    ensures
        r == memory_fits(text::lines_of(input@)),
{
    let chars = text::to_chars(input);
    let lines = text::lines(chars.as_slice());
    if last_value(&lines, "MemTotal").is_none() || last_value(&lines, "MemAvailable").is_some() {
        return true;
    }
    let free = value_or_zero(last_value(&lines, "MemFree")) as u128;
    let buffers = value_or_zero(last_value(&lines, "Buffers")) as u128;
    let cached = value_or_zero(last_value(&lines, "Cached")) as u128;
    free + buffers + cached <= u64::MAX as u128
}

/// Reads the text of `/proc/meminfo`.
pub fn parse_meminfo(input: &str) -> (r: Result<MemoryInfo, MemoryError>)
    requires
        memory_fits(text::lines_of(input@)),
    ensures
        match r {
            Ok(memory) => read_meminfo(text::lines_of(input@)) == Ok::<(u64, int), MemoryError>(
                (memory.total_kib, memory.available_kib as int),
            ),
            Err(error) => read_meminfo(text::lines_of(input@)) == Err::<(u64, int), MemoryError>(
                error,
            ),
        },
{
    let chars = text::to_chars(input);
    let lines = text::lines(chars.as_slice());
    let total_kib = match last_value(&lines, "MemTotal") {
        Some(total) => total,
        None => {
            return Err(MemoryError::MissingTotal);
        },
    };
    let available_kib = match last_value(&lines, "MemAvailable") {
        Some(available) => available,
        None => value_or_zero(last_value(&lines, "MemFree")) + value_or_zero(
            last_value(&lines, "Buffers"),
        ) + value_or_zero(last_value(&lines, "Cached")),
    };
    Ok(MemoryInfo { total_kib, available_kib })
}

/// A size taken down by factors of 1024 until it is below 1024, four times at most: what is left,
/// how often, and what was left over the last time.
pub open spec fn reduced(value: nat, times: nat, over: nat) -> (nat, nat, nat)
    decreases value,
{
    if value > 1023 && times < 4 {
        reduced(value / 1024, times + 1, value % 1024)
    } else {
        (value, times, over)
    }
}

/// The unit of a size that was taken down so often.
pub open spec fn unit(times: nat) -> Seq<char> {
    if times == 0 {
        "KB"@
    } else if times == 1 {
        "MB"@
    } else if times == 2 {
        "GB"@
    } else if times == 3 {
        "TB"@
    } else {
        "PB"@
    }
}

/// How a size is shown: in the unit in which it is below 1024, and one more where 500 or more of
/// the next smaller unit are left over.
pub open spec fn size_text(value: nat) -> Seq<char> {
    let (left, times, over) = reduced(value, 0, 0);
    text::decimal(
        if over >= 500 {
            left + 1
        } else {
            left
        },
    ) + unit(times)
}

/// How a size in KiB is shown.
pub fn human_kib(value: u64) -> (r: String)
    ensures
        r@ == size_text(value as nat),
{
    let mut left = value;
    let mut times: u8 = 0;
    let mut over: u64 = 0;
    while left > 1023 && times < 4
        invariant
            times <= 4,
            times == 0 ==> over == 0,
            times > 0 ==> left <= u64::MAX / 1024,
            reduced(value as nat, 0, 0) == reduced(left as nat, times as nat, over as nat),
        decreases left,
    {
        over = left % 1024;
        left = left / 1024;
        times += 1;
    }
    if over >= 500 {
        left += 1;
    }
    let mut out = String::new();
    text::push_decimal(&mut out, left);
    out.append(
        if times == 0 {
            "KB"
        } else if times == 1 {
            "MB"
        } else if times == 2 {
            "GB"
        } else if times == 3 {
            "TB"
        } else {
            "PB"
        },
    );
    assert(Seq::<char>::empty() + text::decimal(left as nat) =~= text::decimal(left as nat));
    out
}

/// A size that is shown is below 1024 of its unit, or one over, unless it is in the largest unit.
pub proof fn law_shown_sizes_are_small(value: nat)
    ensures
        reduced(value, 0, 0).0 <= 1023 || reduced(value, 0, 0).1 == 4,
        value <= 1023 ==> size_text(value) == text::decimal(value) + "KB"@,
{
    lemma_reduced(value, 0, 0);
}

proof fn lemma_reduced(value: nat, times: nat, over: nat)
    requires
        times <= 4,
    ensures
        reduced(value, times, over).0 <= 1023 || reduced(value, times, over).1 == 4,
    decreases value,
{
    if value > 1023 && times < 4 {
        lemma_reduced(value / 1024, times + 1, value % 1024);
    }
}

/// A mounted file system on a device.
#[derive(Debug, Clone, PartialEq, Eq)]
pub struct Mount {
    pub source: String,
    pub mount_point: String,
}

/// What a [`Mount`] says: the device, and where it is mounted.
pub open spec fn mount_view(mount: Mount) -> (Seq<char>, Seq<char>) {
    (mount.source@, mount.mount_point@)
}

/// A path as it is, where the kernel has written spaces, tabs and backslashes by their codes.
pub open spec fn unescaped(s: Seq<char>) -> Seq<char> {
    text::replaced(
        text::replaced(text::replaced(s, "\\040"@, ' '), "\\011"@, '\t'),
        "\\134"@,
        '\\',
    )
}

/// The mounted device that a line of `/proc/self/mountinfo` tells of.
pub open spec fn mount_in(line: Seq<char>) -> Option<(Seq<char>, Seq<char>)> {
    match text::split_at_word(line, " - "@) {
        None => None,
        Some((first, second)) => {
            let first = text::words_of(first);
            let second = text::words_of(second);
            if first.len() < 5 || second.len() < 2 || !text::begins(second[1], "/dev/"@) {
                None
            } else {
                Some((second[1], unescaped(first[4])))
            }
        },
    }
}

/// The mounted devices that lines tell of, in their order.
pub open spec fn mounts_in(lines: Seq<Seq<char>>) -> Seq<(Seq<char>, Seq<char>)>
    decreases lines.len(),
{
    if lines.len() == 0 {
        seq![]
    } else {
        match mount_in(lines.last()) {
            Some(mount) => mounts_in(lines.drop_last()).push(mount),
            None => mounts_in(lines.drop_last()),
        }
    }
}

fn unescape_mount(value: &[char]) -> (r: String)
    ensures
        r@ == unescaped(value@),
{
    proof {
        reveal_strlit("\\040");
        reveal_strlit("\\011");
        reveal_strlit("\\134");
    }
    let spaces = text::replace(value, "\\040", ' ');
    let tabs = text::replace(spaces.as_slice(), "\\011", '\t');
    let plain = text::replace(tabs.as_slice(), "\\134", '\\');
    text::to_text(plain.as_slice())
}

fn read_mount(line: &[char]) -> (r: Option<Mount>)
    ensures
        match r {
            Some(mount) => mount_in(line@) == Some(mount_view(mount)),
            None => mount_in(line@) is None,
        },
{
    proof {
        reveal_strlit(" - ");
    }
    match text::split_once_at(line, " - ") {
        None => None,
        Some((first, second)) => {
            let first = text::split_whitespace(first);
            let second = text::split_whitespace(second);
            assert(text::views(first@).len() == first@.len());
            assert(text::views(second@).len() == second@.len());
            if first.len() < 5 || second.len() < 2 {
                return None;
            }
            assert(text::views(first@)[4] == first@[4]@);
            assert(text::views(second@)[1] == second@[1]@);
            if !text::starts_with(second[1], "/dev/") {
                return None;
            }
            Some(
                Mount {
                    source: text::to_text(second[1]),
                    mount_point: unescape_mount(first[4]),
                },
            )
        },
    }
}

/// The mounted devices that `/proc/self/mountinfo` tells of.
pub fn parse_mountinfo(input: &str) -> (r: Vec<Mount>)
    ensures
        r@.map_values(|mount: Mount| mount_view(mount)) == mounts_in(text::lines_of(input@)),
{
    let chars = text::to_chars(input);
    let lines = text::lines(chars.as_slice());
    let ghost all = text::views(lines@);
    let ghost show = |mount: Mount| mount_view(mount);
    let mut mounts: Vec<Mount> = Vec::new();
    let mut i: usize = 0;
    assert(all.take(0) =~= Seq::empty());
    assert(mounts@.map_values(show) =~= Seq::empty());
    while i < lines.len()
        invariant
            show == (|mount: Mount| mount_view(mount)),
            all == text::views(lines@),
            i <= lines@.len(),
            mounts@.map_values(show) == mounts_in(all.take(i as int)),
        decreases lines@.len() - i,
    {
        let ghost done = mounts@;
        proof {
            assert(all.take(i + 1).drop_last() =~= all.take(i as int));
            assert(all.take(i + 1).last() == lines@[i as int]@);
        }
        if let Some(mount) = read_mount(lines[i]) {
            mounts.push(mount);
            assert(mounts@.map_values(show) =~= done.map_values(show).push(mount_view(mount)));
        }
        i += 1;
    }
    assert(all.take(i as int) =~= all);
    mounts
}

/// A number of blocks in KiB; what cannot be counted in bytes counts as the most that can.
pub open spec fn blocks_kib(blocks: u64, block_size: u64) -> int {
    let bytes = blocks * block_size;
    (if bytes > u64::MAX {
        u64::MAX as int
    } else {
        bytes
    }) / 1024
}

fn count_kib(blocks: u64, block_size: u64) -> (r: u64)
    ensures
        r == blocks_kib(blocks, block_size),
{
    match blocks.checked_mul(block_size) {
        Some(bytes) => bytes / 1024,
        None => u64::MAX / 1024,
    }
}

/// What is used of a file system with so many blocks, of which so many are available.
pub open spec fn used_blocks_kib(blocks: u64, blocks_available: u64, block_size: u64) -> int {
    let total = blocks_kib(blocks, block_size);
    let available = blocks_kib(blocks_available, block_size);
    if total > available {
        total - available
    } else {
        0
    }
}

/// The size and the use of a mounted device.
pub fn filesystem_info(
    mount: Mount,
    blocks: u64,
    blocks_available: u64,
    block_size: u64,
) -> (r: FilesystemInfo)
    ensures
        r.source@ == mount.source@,
        r.mount_point@ == mount.mount_point@,
        r.total_kib == blocks_kib(blocks, block_size),
        r.used_kib == (if blocks_kib(blocks, block_size) > blocks_kib(blocks_available, block_size) {
            blocks_kib(blocks, block_size) - blocks_kib(blocks_available, block_size)
        } else {
            0
        }),
        r.used_kib == used_blocks_kib(blocks, blocks_available, block_size),
{
    let total_kib = count_kib(blocks, block_size);
    let available_kib = count_kib(blocks_available, block_size);
    FilesystemInfo {
        source: mount.source,
        mount_point: mount.mount_point,
        total_kib,
        used_kib: total_kib.saturating_sub(available_kib),
    }
}

/// A number, or zero where the text is none.
pub open spec fn count_or_zero(s: Seq<char>) -> u32 {
    match text::number(s, u32::MAX as nat) {
        Some(count) => count as u32,
        None => 0,
    }
}

/// What an array tells of itself. A file that cannot be read is given as an empty text.
pub fn raid_info(name: &str, level: &str, state: &str, disks: &str, degraded: &str) -> (r: RaidInfo)
    ensures
        r.name@ == name@,
        r.level@ == text::trimmed(level@),
        r.state@ == text::trimmed(state@),
        r.devices == count_or_zero(text::trimmed(disks@)),
        r.degraded == count_or_zero(text::trimmed(degraded@)),
{
    RaidInfo {
        name: text::to_text(text::to_chars(name).as_slice()),
        level: trimmed_text(level),
        state: trimmed_text(state),
        devices: read_count(disks),
        degraded: read_count(degraded),
    }
}

fn trimmed_text(value: &str) -> (r: String)
    ensures
        r@ == text::trimmed(value@),
{
    let chars = text::to_chars(value);
    text::to_text(text::trim(chars.as_slice()))
}

fn read_count(value: &str) -> (r: u32)
    ensures
        r == count_or_zero(text::trimmed(value@)),
{
    let chars = text::to_chars(value);
    match text::parse_u32(text::trim(chars.as_slice())) {
        Some(count) => count,
        None => 0,
    }
}

/// What is known of the temperature of the processor once some thermal zones were looked at.
#[derive(Debug, Clone, Copy, PartialEq, Eq, Structural)]
pub enum CpuTemperature {
    /// No zone of the processor yet; the first temperature of another one, if any.
    Fallback(Option<Single>),
    /// The zone of the processor has a temperature.
    Found(Single),
    /// The zone of the processor has none.
    Invalid,
}

/// Whether the name is that of a thermal zone.
pub open spec fn is_zone(name: Seq<char>) -> bool {
    text::begins(name, "thermal_zone"@)
}

/// Whether the kind of a thermal zone is that of the processor.
pub open spec fn is_cpu_zone(kind: Seq<char>) -> bool {
    text::holds(text::trimmed(kind), "cpu"@)
}

impl CpuTemperature {
    /// What is known once one more zone was looked at. Once the zone of the processor was found
    /// no other one counts.
    pub open spec fn with_zone(
        self,
        name: Seq<char>,
        kind: Seq<char>,
        temperature: Option<Single>,
    ) -> CpuTemperature {
        match self {
            CpuTemperature::Fallback(fallback) => if !is_zone(name) {
                self
            } else if is_cpu_zone(kind) {
                match temperature {
                    Some(celsius) => CpuTemperature::Found(celsius),
                    None => CpuTemperature::Invalid,
                }
            } else if fallback is Some {
                self
            } else {
                CpuTemperature::Fallback(temperature)
            },
            _ => self,
        }
    }

    /// Looks at one more entry: its name, the kind it gives and its temperature, if it has one.
    pub fn look_at(self, name: &str, kind: &str, temperature: Option<Single>) -> (r: CpuTemperature)
        ensures
            r == self.with_zone(name@, kind@, temperature),
    {
        let fallback = match self {
            CpuTemperature::Fallback(fallback) => fallback,
            _ => {
                return self;
            },
        };
        let name = text::to_chars(name);
        if !text::starts_with(name.as_slice(), "thermal_zone") {
            return self;
        }
        let kind = text::to_chars(kind);
        if text::contains(text::trim(kind.as_slice()), "cpu") {
            match temperature {
                Some(celsius) => CpuTemperature::Found(celsius),
                None => CpuTemperature::Invalid,
            }
        } else if fallback.is_some() {
            self
        } else {
            CpuTemperature::Fallback(temperature)
        }
    }
}

/// Whether the name of a sensor is that of one in a drive.
pub open spec fn names_drive(name: Seq<char>) -> bool {
    text::holds(text::trimmed(name), "drivetemp"@) || text::holds(text::trimmed(name), "nvme"@)
}

/// Whether a file of a sensor is named as one with a temperature.
pub open spec fn names_temperature(file_name: Seq<char>) -> bool {
    text::begins(file_name, "temp"@) && text::ends(file_name, "_input"@)
}

/// Whether the sensor is that of a drive.
pub fn is_drive_sensor(name: &str) -> (r: bool)
    ensures
        r == (text::holds(text::trimmed(name@), "drivetemp"@) || text::holds(
            text::trimmed(name@),
            "nvme"@,
        )),
        r == names_drive(name@),
{
    let chars = text::to_chars(name);
    let name = text::trim(chars.as_slice());
    text::contains(name, "drivetemp") || text::contains(name, "nvme")
}

/// Whether the file of a sensor holds a temperature.
pub fn is_temperature_input(file_name: &str) -> (r: bool)
    ensures
        r == (text::begins(file_name@, "temp"@) && text::ends(file_name@, "_input"@)),
        r == names_temperature(file_name@),
{
    let chars = text::to_chars(file_name);
    text::starts_with(chars.as_slice(), "temp") && text::ends_with(chars.as_slice(), "_input")
}

/// The highest of the temperatures so far and one more.
pub open spec fn hottest(maximum: Option<Single>, celsius: Single) -> Single {
    match maximum {
        Some(current) => current.larger(celsius),
        None => celsius,
    }
}

/// The highest temperature, with one more.
pub fn with_temperature(maximum: Option<Single>, celsius: Single) -> (r: Single)
    ensures
        r == (match maximum {
            Some(current) => current.larger(celsius),
            None => celsius,
        }),
        r == hottest(maximum, celsius),
{
    match maximum {
        Some(current) => current.maximum(celsius),
        None => celsius,
    }
}

/// A line gives a value for a key if the key stands before its first colon, as it is, and the first
/// word behind the colon is a number; that number is the value.
pub proof fn law_line_gives_its_value(name: Seq<char>, rest: Seq<char>, key: Seq<char>)
    requires
        !name.contains(':'),
    ensures
        ({
            let line = name + seq![':'] + rest;
            let words = text::words_of(rest);
            &&& name != key ==> line_value(line, key) is None
            &&& words.len() == 0 ==> line_value(line, key) is None
            &&& name == key && words.len() > 0 ==> match text::number(words[0], u64::MAX as nat) {
                Some(number) => line_value(line, key) == Some(number as u64),
                None => line_value(line, key) is None,
            }
        }),
{
    assert forall|i: int| 0 <= i < name.len() implies name[i] != ':' by {
        assert(name.contains(name[i]));
    }
    text::lemma_piece(name, ':', rest);
}

/// The value for a key is that of the last line that gives one.
pub proof fn law_last_value_counts(
    a: Seq<Seq<char>>,
    line: Seq<char>,
    b: Seq<Seq<char>>,
    key: Seq<char>,
)
    ensures
        value_in(seq![], key) is None,
        value_in(a + b, key) == (if value_in(b, key) is Some {
            value_in(b, key)
        } else {
            value_in(a, key)
        }),
        line_value(line, key) is Some ==> value_in(a.push(line), key) == line_value(line, key),
        line_value(line, key) is None ==> value_in(a + seq![line] + b, key) == value_in(a + b, key),
    decreases b.len(),
{
    assert(a.push(line).drop_last() =~= a);
    if b.len() == 0 {
        assert(a + b =~= a);
        assert(a + seq![line] + b =~= a.push(line));
    } else {
        law_last_value_counts(a, line, b.drop_last(), key);
        assert((a + b).drop_last() =~= a + b.drop_last());
        assert((a + seq![line] + b).drop_last() =~= a + seq![line] + b.drop_last());
    }
}

/// Whenever there is a `MemAvailable` value the available memory is that value, whatever else is
/// said; lines for anything but it and the total can be added, taken away or changed without any
/// difference.
pub proof fn law_available_memory_counts(
    a: Seq<Seq<char>>,
    line: Seq<char>,
    b: Seq<Seq<char>>,
)
    ensures
        ({
            let lines = a + b;
            let more = a + seq![line] + b;
            let total = value_in(lines, "MemTotal"@);
            let available = value_in(lines, "MemAvailable"@);
            &&& total is None <==> read_meminfo(lines) is Err
            &&& total is Some && available is Some ==> read_meminfo(lines) == Ok::<
                (u64, int),
                MemoryError,
            >((total->Some_0, available->Some_0 as int))
            &&& available is Some && line_value(line, "MemTotal"@) is None && line_value(
                line,
                "MemAvailable"@,
            ) is None ==> read_meminfo(more) == read_meminfo(lines)
        }),
{
    law_last_value_counts(a, line, b, "MemTotal"@);
    law_last_value_counts(a, line, b, "MemAvailable"@);
}

/// Without a `MemAvailable` value, the available memory is what is free and what can be freed: a
/// value for `MemFree`, `Buffers` or `Cached` adds to it by as much as it is larger than the value
/// that was there before.
pub proof fn law_free_memory_adds_up(lines: Seq<Seq<char>>, line: Seq<char>, key: Seq<char>)
    requires
        key == "MemFree"@ || key == "Buffers"@ || key == "Cached"@,
        value_in(lines, "MemAvailable"@) is None,
        value_in(lines, "MemTotal"@) is Some,
        line_value(line, key) is Some,
        forall|other: Seq<char>| other != key ==> #[trigger] line_value(line, other) is None,
    ensures
        read_meminfo(lines) is Ok,
        read_meminfo(lines.push(line)) is Ok,
        ({
            let before = match value_in(lines, key) {
                Some(value) => value as int,
                None => 0,
            };
            read_meminfo(lines.push(line))->Ok_0.1 == read_meminfo(lines)->Ok_0.1 + line_value(
                line,
                key,
            )->Some_0 - before
        }),
        read_meminfo(lines.push(line))->Ok_0.0 == read_meminfo(lines)->Ok_0.0,
        value_in(lines, "MemFree"@) is None && value_in(lines, "Buffers"@) is None && value_in(
            lines,
            "Cached"@,
        ) is None ==> read_meminfo(lines)->Ok_0.1 == 0,
{
    reveal_strlit("MemFree");
    reveal_strlit("Buffers");
    reveal_strlit("Cached");
    reveal_strlit("MemTotal");
    reveal_strlit("MemAvailable");
    assert("MemFree"@.len() == 7 && "Buffers"@.len() == 7 && "Cached"@.len() == 6);
    assert("MemTotal"@.len() == 8 && "MemAvailable"@.len() == 12);
    assert("MemFree"@[0] == 'M' && "Buffers"@[0] == 'B');
    assert("MemFree"@ != "Buffers"@);
    assert(lines.push(line).drop_last() =~= lines);
    assert(lines.push(line).last() == line);
    let names = seq!["MemFree"@, "Buffers"@, "Cached"@, "MemTotal"@, "MemAvailable"@];
    assert forall|i: int| 0 <= i < names.len() && names[i] != key implies value_in(
        lines.push(line),
        #[trigger] names[i],
    ) == value_in(lines, names[i]) by {
        assert(line_value(line, names[i]) is None);
    }
    assert(names[0] == "MemFree"@ && names[1] == "Buffers"@ && names[2] == "Cached"@ && names[3]
        == "MemTotal"@ && names[4] == "MemAvailable"@);
    assert(value_in(lines.push(line), key) == line_value(line, key));
}

/// Numbers add up.
pub proof fn law_sums_add_up(a: Seq<u64>, b: Seq<u64>, n: u64)
    ensures
        sum_of(seq![]) == 0,
        sum_of(a.push(n)) == sum_of(a) + n,
        sum_of(a + b) == sum_of(a) + sum_of(b),
    decreases b.len(),
{
    assert(a.push(n).drop_last() =~= a);
    if b.len() == 0 {
        assert(a + b =~= a);
    } else {
        law_sums_add_up(a, b.drop_last(), n);
        assert((a + b).drop_last() =~= a + b.drop_last());
    }
}

/// The numbers of words are those of each word, in their order.
pub proof fn law_numbers_of_words(words: Seq<Seq<char>>)
    ensures
        match numbers_of(words) {
            Some(numbers) => numbers.len() == words.len() && forall|i: int|
                0 <= i < words.len() ==> text::number(#[trigger] words[i], u64::MAX as nat) == Some(
                    numbers[i] as nat,
                ),
            None => exists|i: int|
                0 <= i < words.len() && text::number(#[trigger] words[i], u64::MAX as nat) is None,
        },
    decreases words.len(),
{
    if words.len() > 0 {
        let head = words.drop_last();
        law_numbers_of_words(head);
        let last = text::number(words.last(), u64::MAX as nat);
        assert(words[words.len() - 1] == words.last());
        match (numbers_of(head), last) {
            (Some(numbers), Some(number)) => {
                assert forall|i: int| 0 <= i < words.len() implies text::number(
                    #[trigger] words[i],
                    u64::MAX as nat,
                ) == Some(numbers_of(words)->Some_0[i] as nat) by {
                    if i < head.len() {
                        assert(head[i] == words[i]);
                    }
                }
            },
            (None, _) => {
                let i = choose|i: int|
                    0 <= i < head.len() && text::number(
                        #[trigger] head[i],
                        u64::MAX as nat,
                    ) is None;
                assert(words[i] == head[i]);
            },
            (_, None) => {
                assert(text::number(words[words.len() - 1], u64::MAX as nat) is None);
            },
        }
    }
}

/// A processor's row gives its counters under its name: in all the sum of its numbers, of which
/// the fourth and the fifth are idle time; the rows of other processors keep theirs. A row for
/// anything else, and one with less than five numbers, changes nothing.
pub proof fn law_row_gives_counters(entries: CpuEntries, row: Seq<char>, other: Seq<char>)
    requires
        in_order(entries),
        row_fits(row),
    ensures
        ({
            let words = text::words_of(row);
            let name = words[0];
            let numbers = words.skip(1);
            let count = |i: int| text::number(words[i], u64::MAX as nat)->Some_0;
            &&& !is_cpu_row(row) ==> with_row(entries, row) == Ok::<CpuEntries, Seq<char>>(entries)
            &&& is_cpu_row(row) && numbers_of(numbers) is None ==> with_row(entries, row) == Err::<
                CpuEntries,
                Seq<char>,
            >(row)
            &&& is_cpu_row(row) && words.len() > 0 && numbers_of(numbers) is Some && words.len() < 6
                ==> with_row(entries, row) == Ok::<CpuEntries, Seq<char>>(entries)
            &&& is_cpu_row(row) && words.len() >= 6 && numbers_of(numbers) is Some ==> {
                &&& with_row(entries, row) is Ok
                &&& counters_of(with_row(entries, row)->Ok_0, name) matches Some(counters)
                    && counters.idle == count(4) + count(5) && counters.total == sum_of(
                    numbers_of(numbers)->Some_0,
                )
                &&& other != name ==> counters_of(with_row(entries, row)->Ok_0, other)
                    == counters_of(entries, other)
            }
        }),
{
    let words = text::words_of(row);
    let numbers = words.skip(1);
    law_numbers_of_words(numbers);
    if is_cpu_row(row) && words.len() >= 6 && numbers_of(numbers) is Some {
        let values = numbers_of(numbers)->Some_0;
        assert(numbers[3] == words[4] && numbers[4] == words[5]);
        lemma_two_of_sum(values);
        law_put(
            entries,
            words[0],
            CpuCounters { total: sum_of(values) as u64, idle: (values[3] + values[4]) as u64 },
            other,
        );
    }
}

/// Two of the numbers are no more than their sum.
proof fn lemma_two_of_sum(values: Seq<u64>)
    requires
        values.len() >= 5,
    ensures
        values[3] + values[4] <= sum_of(values),
{
    let head = values.take(5);
    let tail = values.skip(5);
    assert(head + tail =~= values);
    law_sums_add_up(head, tail, 0);
    assert(head.drop_last().drop_last() =~= values.take(3));
    assert(head.drop_last().last() == values[3]);
    assert(sum_of(head) == sum_of(head.drop_last()) + values[4]);
    assert(sum_of(head.drop_last()) == sum_of(values.take(3)) + values[3]);
}

/// The rows of single processors begin with `cpu` and a number; the row for all of them together
/// does not count.
pub proof fn law_processor_rows(name: Seq<char>, rest: Seq<char>)
    requires
        text::is_word(name),
        name.len() >= 3,
        name.take(3) == "cpu"@,
    ensures
        is_cpu_row(name + seq![' '] + rest) <==> name.len() > 3 && text::all_digits(name.skip(3)),
{
    text::lemma_word(name, rest);
    reveal_strlit("cpu");
    assert("cpu"@.len() == 3);
    let row = name + seq![' '] + rest;
    assert(row.take(3) =~= name.take(3));
    assert(text::words_of(row)[0] == name);
}

/// The usage is the share of the time between two readings in which the processor was not idle, in
/// whole percent, rounded down; no time at all is no usage.
pub proof fn law_usage_is_the_busy_share(first: CpuCounters, second: CpuCounters)
    requires
        first.total < second.total,
        first.idle <= second.idle,
        second.idle - first.idle <= second.total - first.total,
    ensures
        ({
            let total = second.total - first.total;
            let busy = total - (second.idle - first.idle);
            let percent = busy_percent(first, second);
            percent * total <= busy * 100 < (percent + 1) * total
        }),
        second.idle == first.idle ==> busy_percent(first, second) == 100,
        second.idle - first.idle == second.total - first.total ==> busy_percent(first, second) == 0,
{
    let total = second.total - first.total;
    let busy = total - (second.idle - first.idle);
    let x = busy * 100;
    vstd::arithmetic::div_mod::lemma_fundamental_div_mod(x, total);
    vstd::arithmetic::div_mod::lemma_mod_bound(x, total);
    let q = x / total;
    vstd::arithmetic::mul::lemma_mul_is_commutative(q, total);
    vstd::arithmetic::mul::lemma_mul_is_distributive_add_other_way(total, q, 1);
    if second.idle == first.idle {
        vstd::arithmetic::mul::lemma_mul_is_commutative(total, 100);
        vstd::arithmetic::div_mod::lemma_div_multiples_vanish(100, total);
    }
    if busy == 0 {
        vstd::arithmetic::div_mod::lemma_div_of0(total);
    }
}

/// Every processor that both readings know has its usage, in the order of the first reading.
pub proof fn law_usages_add_up(a: CpuEntries, b: CpuEntries, second: CpuEntries)
    ensures
        usages(a + b, second) == usages(a, second) + usages(b, second),
        usages(seq![], second).len() == 0,
    decreases b.len(),
{
    if b.len() == 0 {
        assert(a + b =~= a);
        assert(usages(a, second) + usages(b, second) =~= usages(a, second));
    } else {
        law_usages_add_up(a, b.drop_last(), second);
        assert((a + b).drop_last() =~= a + b.drop_last());
        assert(usages(a + b, second) =~= usages(a, second) + usages(b, second));
    }
}

/// One processor: its name with its usage if the second reading knows it, and nothing otherwise.
pub proof fn law_usage_of_one(name: Seq<char>, counters: CpuCounters, second: CpuEntries)
    ensures
        match counters_of(second, name) {
            Some(later) => usages(seq![(name, counters)], second) == seq![
                (name, busy_percent(counters, later) as u8),
            ],
            None => usages(seq![(name, counters)], second).len() == 0,
        },
{
    let one = seq![(name, counters)];
    assert(one.drop_last() =~= seq![]);
    assert(usages(seq![], second) =~= seq![]);
    if let Some(later) = counters_of(second, name) {
        assert(usages(one, second) =~= seq![(name, busy_percent(counters, later) as u8)]);
    }
}

/// A size is shown in the largest unit in which it is not below one, rounded to a whole number:
/// up if there are 500 or more of the 1024 parts of the next smaller unit, down otherwise.
pub proof fn law_sizes_are_shown_in_their_unit(value: nat)
    ensures
        value < 1024 ==> size_text(value) == text::decimal(value) + "KB"@,
        1024 <= value < 1024 * 1024 ==> size_text(value) == text::decimal(
            value / 1024 + if value % 1024 >= 500 {
                1nat
            } else {
                0nat
            },
        ) + "MB"@,
        1024 * 1024 <= value < 1024 * 1024 * 1024 ==> size_text(value) == text::decimal(
            value / 1024 / 1024 + if value / 1024 % 1024 >= 500 {
                1nat
            } else {
                0nat
            },
        ) + "GB"@,
        1024 * 1024 * 1024 <= value < 1024 * 1024 * 1024 * 1024 ==> size_text(value)
            == text::decimal(
            value / 1024 / 1024 / 1024 + if value / 1024 / 1024 % 1024 >= 500 {
                1nat
            } else {
                0nat
            },
        ) + "TB"@,
        1024 * 1024 * 1024 * 1024 <= value ==> size_text(value) == text::decimal(
            value / 1024 / 1024 / 1024 / 1024 + if value / 1024 / 1024 / 1024 % 1024 >= 500 {
                1nat
            } else {
                0nat
            },
        ) + "PB"@,
{
    let a = value / 1024;
    let b = a / 1024;
    let c = b / 1024;
    let d = c / 1024;
    assert(reduced(value, 0, 0) == if value > 1023 {
        reduced(a, 1, value % 1024)
    } else {
        (value, 0nat, 0nat)
    });
    assert(reduced(a, 1, value % 1024) == if a > 1023 {
        reduced(b, 2, a % 1024)
    } else {
        (a, 1nat, value % 1024)
    });
    assert(reduced(b, 2, a % 1024) == if b > 1023 {
        reduced(c, 3, b % 1024)
    } else {
        (b, 2nat, a % 1024)
    });
    assert(reduced(c, 3, b % 1024) == if c > 1023 {
        reduced(d, 4, c % 1024)
    } else {
        (c, 3nat, b % 1024)
    });
    assert(reduced(d, 4, c % 1024) == (d, 4nat, c % 1024));
}

/// A line names a mount of a device: behind the first separator the device is the second word, and
/// before it the mount point is the fifth, with its escapes undone. Mounts of anything but a
/// device, and lines without these words, do not count.
pub proof fn law_line_names_its_mount(line: Seq<char>, first: Seq<char>, second: Seq<char>)
    requires
        text::split_at_word(line, " - "@) == Some((first, second)),
    ensures
        line == first + " - "@ + second,
        ({
            let left = text::words_of(first);
            let right = text::words_of(second);
            let device = right.len() >= 2 && right[1].len() >= 5 && right[1].take(5) == "/dev/"@;
            &&& left.len() >= 5 && device ==> mount_in(line) == Some((right[1], unescaped(left[4])))
            &&& !(left.len() >= 5 && device) ==> mount_in(line) is None
        }),
{
    reveal_strlit(" - ");
    reveal_strlit("/dev/");
    assert(" - "@.len() == 3 && "/dev/"@.len() == 5);
    text::law_parted_at_first_word(line, " - "@);
}

/// The mounts of lines behind others come behind theirs.
pub proof fn law_mounts_add_up(a: Seq<Seq<char>>, b: Seq<Seq<char>>, line: Seq<char>)
    ensures
        mounts_in(seq![]).len() == 0,
        mounts_in(a + b) == mounts_in(a) + mounts_in(b),
        mounts_in(seq![line]) == (match mount_in(line) {
            Some(mount) => seq![mount],
            None => seq![],
        }),
    decreases b.len(),
{
    assert(seq![line].drop_last() =~= seq![]);
    assert(mounts_in(seq![]) =~= seq![]);
    if let Some(mount) = mount_in(line) {
        assert(mounts_in(seq![line]) =~= seq![mount]);
    }
    if b.len() == 0 {
        assert(a + b =~= a);
        assert(mounts_in(a) + mounts_in(b) =~= mounts_in(a));
    } else {
        law_mounts_add_up(a, b.drop_last(), line);
        assert((a + b).drop_last() =~= a + b.drop_last());
        assert(mounts_in(a + b) =~= mounts_in(a) + mounts_in(b));
    }
}

/// Escaped blanks, tabs and backslashes become what they stand for.
pub proof fn law_escapes_are_undone(s: Seq<char>)
    requires
        !s.contains('\\'),
    ensures
        unescaped(s) == s,
        unescaped("\\040"@) == seq![' '],
        unescaped("\\011"@) == seq!['\t'],
        unescaped("\\134"@) == seq!['\\'],
{
    reveal_strlit("\\040");
    reveal_strlit("\\011");
    reveal_strlit("\\134");
    let blank = "\\040"@;
    let tab = "\\011"@;
    let slash = "\\134"@;
    assert(blank =~= seq!['\\', '0', '4', '0']);
    assert(tab =~= seq!['\\', '0', '1', '1']);
    assert(slash =~= seq!['\\', '1', '3', '4']);
    let none = Seq::<char>::empty();
    lemma_unescaped_alone(s, blank, ' ');
    lemma_unescaped_alone(s, tab, '\t');
    lemma_unescaped_alone(s, slash, '\\');
    text::law_replacing(none, blank, ' ', none);
    text::law_replacing(none, tab, '\t', none);
    text::law_replacing(none, slash, '\\', none);
    assert(blank + none =~= blank && tab + none =~= tab && slash + none =~= slash);
    assert(text::replaced(none, blank, ' ') =~= none);
    assert(seq![' '] + none =~= seq![' '] && seq!['\t'] + none =~= seq!['\t'] && seq!['\\'] + none
        =~= seq!['\\']);
    assert(text::replaced(blank, blank, ' ') == seq![' ']);
    assert(text::replaced(tab, tab, '\t') == seq!['\t']);
    assert(text::replaced(slash, slash, '\\') == seq!['\\']);
    assert(!seq![' '].contains('\\'));
    assert(!seq!['\t'].contains('\\'));
    lemma_unescaped_alone(seq![' '], tab, '\t');
    lemma_unescaped_alone(seq![' '], slash, '\\');
    lemma_unescaped_alone(seq!['\t'], slash, '\\');
    lemma_other_escape(tab, blank, ' ');
    lemma_other_escape(slash, blank, ' ');
    lemma_other_escape(slash, tab, '\t');
}

/// Where no backslash stands, no escape does.
proof fn lemma_unescaped_alone(s: Seq<char>, escape: Seq<char>, c: char)
    requires
        !s.contains('\\'),
        escape.len() > 0,
        escape[0] == '\\',
    ensures
        text::replaced(s, escape, c) == s,
{
    assert forall|i: int| 0 <= i < s.len() implies !text::begins(#[trigger] s.skip(i), escape) by {
        let rest = s.skip(i);
        assert(s.contains(s[i]));
        if text::begins(rest, escape) {
            assert(rest.take(escape.len() as int)[0] == rest[0]);
        }
    }
    text::law_replacing(s, escape, c, s);
}

/// An escape is not taken for another one.
proof fn lemma_other_escape(s: Seq<char>, escape: Seq<char>, c: char)
    requires
        s.len() == 4,
        escape.len() == 4,
        s != escape,
        escape[0] == '\\',
        s[1] != '\\' && s[2] != '\\' && s[3] != '\\',
    ensures
        text::replaced(s, escape, c) == s,
{
    assert forall|i: int| 0 <= i < s.len() implies !text::begins(#[trigger] s.skip(i), escape) by {
        let rest = s.skip(i);
        if text::begins(rest, escape) {
            assert(i == 0);
            assert(rest =~= s);
            assert(rest.take(4) =~= rest);
        }
    }
    text::law_replacing(s, escape, c, s);
}

/// Blocks are counted in kibibytes, rounded down.
pub proof fn law_blocks_in_kibibytes(blocks: u64, block_size: u64)
    requires
        blocks * block_size <= u64::MAX,
    ensures
        1024 * blocks_kib(blocks, block_size) <= blocks * block_size < 1024 * (blocks_kib(
            blocks,
            block_size,
        ) + 1),
{
}

/// The first zone that is one of the processor decides, even if it cannot be read; until then the
/// first other zone that can be read stands in. What is no zone does not count.
pub proof fn law_processor_zone_decides(
    state: CpuTemperature,
    name: Seq<char>,
    kind: Seq<char>,
    temperature: Option<Single>,
)
    ensures
        ({
            let zone = name.len() >= 12 && name.take(12) == "thermal_zone"@;
            let processor = exists|i: int|
                0 <= i <= text::trimmed(kind).len() && #[trigger] text::begins(
                    text::trimmed(kind).skip(i),
                    "cpu"@,
                );
            let after = state.with_zone(name, kind, temperature);
            &&& !(state is Fallback) ==> after == state
            &&& !zone ==> after == state
            &&& state is Fallback && zone && processor ==> match temperature {
                Some(celsius) => after == CpuTemperature::Found(celsius),
                None => after == CpuTemperature::Invalid,
            }
            &&& state == CpuTemperature::Fallback(None) && zone && !processor ==> after
                == CpuTemperature::Fallback(temperature)
            &&& zone && !processor && (state matches CpuTemperature::Fallback(found) && found is Some)
                ==> after == state
        }),
{
    reveal_strlit("thermal_zone");
    assert("thermal_zone"@.len() == 12);
}

/// What is used of a file system and what is available of it make up its size, as long as no more
/// is available than there is.
pub proof fn law_used_and_available(blocks: u64, blocks_available: u64, block_size: u64)
    ensures
        blocks_available <= blocks ==> used_blocks_kib(blocks, blocks_available, block_size)
            + blocks_kib(blocks_available, block_size) == blocks_kib(blocks, block_size),
        blocks_available >= blocks ==> used_blocks_kib(blocks, blocks_available, block_size) == 0,
        used_blocks_kib(blocks, 0, block_size) == blocks_kib(blocks, block_size),
{
    let a = blocks as int;
    let b = blocks_available as int;
    let size = block_size as int;
    assert(b <= a ==> b * size <= a * size) by (nonlinear_arith)
        requires
            size >= 0,
    ;
    assert(b >= a ==> b * size >= a * size) by (nonlinear_arith)
        requires
            size >= 0,
    ;
    assert(a * size >= 0) by (nonlinear_arith)
        requires
            a >= 0,
            size >= 0,
    ;
}

/// A count is the number that the text is, and zero for any other text.
pub proof fn law_counts(n: u32, s: Seq<char>)
    ensures
        count_or_zero(text::decimal(n as nat)) == n,
        text::number(s, u32::MAX as nat) is None ==> count_or_zero(s) == 0,
        text::number(s, u32::MAX as nat) matches Some(number) ==> count_or_zero(s) == number,
{
    text::lemma_number_of_decimal(n as nat, u32::MAX as nat);
}

/// The hottest of the temperatures is one of them and not below any of them.
pub proof fn law_hottest_is_kept(maximum: Single, celsius: Single)
    ensures
        hottest(None, celsius) == celsius,
        hottest(Some(maximum), celsius) == maximum || hottest(Some(maximum), celsius) == celsius,
        !maximum.nan() && !celsius.nan() ==> hottest(Some(maximum), celsius).reaches(maximum)
            && hottest(Some(maximum), celsius).reaches(celsius),
        maximum.nan() ==> hottest(Some(maximum), celsius) == celsius,
        celsius.nan() && !maximum.nan() ==> hottest(Some(maximum), celsius) == maximum,
{
}

/// Sensors of drives have `drivetemp` or `nvme` in their names.
#[verifier::spinoff_prover]
pub proof fn law_sensors_of_drives(a: Seq<char>, b: Seq<char>)
    requires
        a.len() > 0 ==> !text::is_space(a[0]),
        b.len() > 0 ==> !text::is_space(b.last()),
    ensures
        names_drive(a + "drivetemp"@ + b),
        names_drive(a + "nvme"@ + b),
{
    lemma_drive_words();
    lemma_bare_name_holds(a, "drivetemp"@, b);
    lemma_bare_name_holds(a, "nvme"@, b);
    assert(text::holds(text::trimmed(a + "drivetemp"@ + b), "drivetemp"@));
    assert(text::holds(text::trimmed(a + "nvme"@ + b), "nvme"@));
}

/// The words have no spaces around them.
proof fn lemma_drive_words()
    ensures
        "drivetemp"@.len() > 0 && !text::is_space("drivetemp"@[0]) && !text::is_space(
            "drivetemp"@.last(),
        ),
        "nvme"@.len() > 0 && !text::is_space("nvme"@[0]) && !text::is_space("nvme"@.last()),
{
    reveal_strlit("drivetemp");
    reveal_strlit("nvme");
    assert("drivetemp"@.len() == 9 && "nvme"@.len() == 4);
    assert("drivetemp"@[0] == 'd' && "drivetemp"@[8] == 'p');
    assert("nvme"@[0] == 'n' && "nvme"@[3] == 'e');
}

/// A name without spaces around it holds a word that stands in it.
proof fn lemma_bare_name_holds(a: Seq<char>, word: Seq<char>, b: Seq<char>)
    requires
        word.len() > 0,
        !text::is_space(word[0]),
        !text::is_space(word.last()),
        a.len() > 0 ==> !text::is_space(a[0]),
        b.len() > 0 ==> !text::is_space(b.last()),
    ensures
        text::holds(text::trimmed(a + word + b), word),
{
    let name = a + word + b;
    assert(name[0] == if a.len() > 0 {
        a[0]
    } else {
        word[0]
    });
    assert(name.last() == if b.len() > 0 {
        b.last()
    } else {
        word.last()
    });
    text::lemma_trimmed(name);
    text::lemma_holds_between(a, word, b);
}

/// The files with temperatures have names that begin with `temp` and end with `_input`.
pub proof fn law_files_with_temperatures(middle: Seq<char>, name: Seq<char>)
    ensures
        names_temperature("temp"@ + middle + "_input"@),
        names_temperature(name) ==> name.len() >= 6 && name.take(4) == "temp"@ && name.skip(
            name.len() - 6,
        ) == "_input"@,
{
    reveal_strlit("temp");
    reveal_strlit("_input");
    assert("temp"@.len() == 4 && "_input"@.len() == 6);
    let file = "temp"@ + middle + "_input"@;
    text::lemma_holds_between("temp"@ + middle, "_input"@, seq![]);
    assert(file =~= "temp"@ + (middle + "_input"@));
    text::lemma_holds_between(seq![], "temp"@, middle + "_input"@);
}

/// Rows count one after the other, and the first one that cannot be read is told.
pub proof fn law_rows_count_in_turn(rows: Seq<Seq<char>>, row: Seq<char>)
    ensures
        entries_of(seq![]) == Ok::<CpuEntries, Seq<char>>(seq![]),
        entries_of(rows) is Err ==> entries_of(rows.push(row)) == entries_of(rows),
        entries_of(rows) matches Ok(entries) ==> entries_of(rows.push(row)) == with_row(
            entries,
            row,
        ),
{
    assert(rows.push(row).drop_last() =~= rows);
}

/// The rows of a text are its lines: one more at its end counts behind the others.
pub proof fn law_added_row_counts(input: Seq<char>, row: Seq<char>)
    requires
        input.len() > 0 ==> input.last() == '\n',
        row.len() > 0,
        !row.contains('\n'),
    ensures
        read_stat(seq![]) == Ok::<CpuEntries, Seq<char>>(seq![]),
        read_stat(input) is Err ==> read_stat(input + row) == read_stat(input),
        read_stat(input) matches Ok(entries) ==> read_stat(input + row) == with_row(entries, row),
{
    text::law_lines_join(input, row);
    text::law_lines_hold_no_line_feed(row);
    let rows = text::lines_of(input);
    assert(rows + seq![row] =~= rows.push(row));
    law_rows_count_in_turn(rows, row);
}

/// Counters that went backwards count as standing still: a processor whose idle time fell was
/// busy all the time, and one that was idle for longer than there was time was not busy at all.
pub proof fn law_usage_of_odd_counters(first: CpuCounters, second: CpuCounters)
    ensures
        first.total < second.total && second.idle <= first.idle ==> busy_percent(first, second)
            == 100,
        second.total >= first.total && second.idle >= first.idle && second.idle - first.idle
            >= second.total - first.total ==> busy_percent(first, second) == 0,
        second.total <= first.total ==> busy_percent(first, second) == 0,
{
    let total = increase(first.total, second.total);
    if first.total < second.total && second.idle <= first.idle {
        vstd::arithmetic::mul::lemma_mul_is_commutative(total, 100);
        vstd::arithmetic::div_mod::lemma_div_multiples_vanish(100, total);
    } else if total > 0 {
        vstd::arithmetic::div_mod::lemma_div_of0(total);
    }
}

/// What memory tables say can be computed wherever the values are not absurdly large.
pub proof fn law_memory_tables_fit(lines: Seq<Seq<char>>)
    ensures
        value_in(lines, "MemAvailable"@) is Some ==> memory_fits(lines),
        (value_in(lines, "MemFree"@) matches Some(n) ==> n <= 0x4000_0000_0000_0000) && (value_in(
            lines,
            "Buffers"@,
        ) matches Some(n) ==> n <= 0x4000_0000_0000_0000) && (value_in(lines, "Cached"@) matches Some(
            n,
        ) ==> n <= 0x4000_0000_0000_0000) ==> memory_fits(lines),
{
}

/// Rows can be added up wherever each of them can, and usages be computed wherever no counter is
/// absurdly large.
pub proof fn law_processor_tables_fit(
    rows: Seq<Seq<char>>,
    first: CpuEntries,
    second: CpuEntries,
)
    ensures
        (forall|n: int| 0 <= n < rows.len() ==> row_fits(#[trigger] rows[n])) ==> rows_fit(rows),
        (forall|name: Seq<char>| #[trigger]
            counters_of(second, name) matches Some(counters) ==> counters.total
                <= 0x0200_0000_0000_0000) ==> usages_fit(first, second),
{
    if forall|name: Seq<char>| #[trigger]
        counters_of(second, name) matches Some(counters) ==> counters.total
            <= 0x0200_0000_0000_0000 {
        assert forall|i: int|
            0 <= i < first.len() && counters_of(second, (#[trigger] first[i]).0) is Some implies busy(
            first[i].1,
            counters_of(second, first[i].0)->0,
        ) * 100 <= u64::MAX by {
            let counters = counters_of(second, first[i].0)->0;
            assert(counters.total <= 0x0200_0000_0000_0000);
            assert(busy(first[i].1, counters) <= 0x0200_0000_0000_0000);
        }
    }
}

} // verus!

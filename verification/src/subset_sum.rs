//! Solving of the subset sum problem: given numbers and a target, decide
//! whether some of the numbers, each used at most once, sum to the target.
//!
//! Two dynamic-programming formulations are offered. Both go through the
//! numbers once and keep, for the numbers seen so far, which sums can be
//! made: one as a set of the sums, the other as a row of booleans indexed by
//! the sum. Each comes as a decision function, which keeps one row, and as a
//! table function, which hands back every row.

use std::collections::HashSet;
use vstd::prelude::*;
use vstd::std_specs::hash::group_hash_axioms;

verus! {

/// The sum of all numbers.
pub open spec fn total_sum(numbers: Seq<u64>) -> nat
    decreases numbers.len(),
{
    if numbers.len() == 0 {
        0
    } else {
        total_sum(numbers.drop_last()) + numbers.last() as nat
    }
}

/// The sum of the numbers whose position `mask` marks.
pub open spec fn selected_sum(numbers: Seq<u64>, mask: Seq<bool>) -> nat
    decreases numbers.len(),
{
    if numbers.len() == 0 {
        0
    } else {
        selected_sum(numbers.drop_last(), mask.drop_last()) + if mask.last() {
            numbers.last() as nat
        } else {
            0
        }
    }
}

/// Whether some of the numbers, each used at most once, sum to `target`.
pub open spec fn is_subset_sum(numbers: Seq<u64>, target: nat) -> bool {
    exists|mask: Seq<bool>|
        mask.len() == numbers.len() && #[trigger] selected_sum(numbers, mask) == target
}

/// Whether `target` can be made from the numbers, decided on the last
/// number: `target` can be made without it, or it is at most `target` and
/// the difference can be made without it. Only zero can be made from no
/// numbers.
pub open spec fn reachable(numbers: Seq<u64>, target: nat) -> bool
    decreases numbers.len(),
{
    if numbers.len() == 0 {
        target == 0
    } else {
        reachable(numbers.drop_last(), target) || (numbers.last() <= target && reachable(
            numbers.drop_last(),
            (target - numbers.last()) as nat,
        ))
    }
}

/// The row of the set formulation for `numbers`: the sums up to `limit` that
/// can be made. The row for no numbers holds zero alone; each further number
/// adds itself to every sum of the row before, as far as `limit` allows.
pub open spec fn sums_row(numbers: Seq<u64>, limit: u64) -> Set<u64>
    decreases numbers.len(),
{
    if numbers.len() == 0 {
        set![0u64]
    } else {
        let before = sums_row(numbers.drop_last(), limit);
        before.union(shifted(before, numbers.last(), limit))
    }
}

/// The sums of `row`, each raised by `number`, as far as `limit` allows.
pub open spec fn shifted(row: Set<u64>, number: u64, limit: u64) -> Set<u64> {
    Set::new(|sum: u64| number <= sum <= limit && row.contains((sum - number) as u64))
}

/// The row of the boolean formulation for `numbers`, `width` entries wide:
/// entry `j` tells whether the sum `j` can be made. The row for no numbers
/// marks zero alone; each further number marks, beside what the row before
/// marks, every marked sum raised by the number, as far as the row reaches.
pub open spec fn bool_row(numbers: Seq<u64>, width: nat) -> Seq<bool>
    decreases numbers.len(),
{
    if numbers.len() == 0 {
        Seq::new(width, |j: int| j == 0)
    } else {
        let before = bool_row(numbers.drop_last(), width);
        Seq::new(width, |j: int| before[j] || (numbers.last() <= j && before[j - numbers.last()]))
    }
}

/// A sum can be made by the recurrence exactly when some of the numbers sum
/// to it.
pub proof fn lemma_reachable_is_subset_sum(numbers: Seq<u64>, target: nat)
    ensures
        reachable(numbers, target) <==> is_subset_sum(numbers, target),
    decreases numbers.len(),
{
    if numbers.len() == 0 {
        if target == 0 {
            let none = Seq::<bool>::empty();
            assert(none.len() == numbers.len() && selected_sum(numbers, none) == 0);
            assert(is_subset_sum(numbers, target));
        } else {
            assert forall|mask: Seq<bool>| mask.len() == numbers.len() implies selected_sum(
                numbers,
                mask,
            ) != target by {}
        }
    } else {
        let front = numbers.drop_last();
        let last = numbers.last();
        lemma_reachable_is_subset_sum(front, target);
        if last <= target {
            lemma_reachable_is_subset_sum(front, (target - last) as nat);
        }
        if reachable(numbers, target) {
            if reachable(front, target) {
                let mask = choose|mask: Seq<bool>|
                    mask.len() == front.len() && selected_sum(front, mask) == target;
                assert(mask.push(false).drop_last() =~= mask);
                assert(selected_sum(numbers, mask.push(false)) == target);
                assert(mask.push(false).len() == numbers.len());
                assert(is_subset_sum(numbers, target));
            } else {
                let mask = choose|mask: Seq<bool>|
                    mask.len() == front.len() && selected_sum(front, mask) == target - last;
                assert(mask.push(true).drop_last() =~= mask);
                assert(selected_sum(numbers, mask.push(true)) == target);
                assert(mask.push(true).len() == numbers.len());
                assert(is_subset_sum(numbers, target));
            }
        }
        if is_subset_sum(numbers, target) {
            let mask = choose|mask: Seq<bool>|
                mask.len() == numbers.len() && selected_sum(numbers, mask) == target;
            assert(mask.drop_last().len() == front.len());
            if mask.last() {
                assert(selected_sum(front, mask.drop_last()) == target - last);
                assert(is_subset_sum(front, (target - last) as nat));
            } else {
                assert(selected_sum(front, mask.drop_last()) == target);
                assert(is_subset_sum(front, target));
            }
            assert(reachable(numbers, target));
        }
    }
}

/// The set row holds exactly the sums up to the limit that can be made.
pub proof fn lemma_sums_row(numbers: Seq<u64>, limit: u64)
    ensures
        forall|sum: u64| #[trigger]
            sums_row(numbers, limit).contains(sum) <==> sum <= limit && reachable(
                numbers,
                sum as nat,
            ),
        sums_row(numbers, limit).finite(),
    decreases numbers.len(),
{
    if numbers.len() > 0 {
        let before = sums_row(numbers.drop_last(), limit);
        let last = numbers.last();
        lemma_sums_row(numbers.drop_last(), limit);
        assert forall|sum: u64| #[trigger]
            sums_row(numbers, limit).contains(sum) <==> sum <= limit && reachable(
                numbers,
                sum as nat,
            ) by {
            if last <= sum {
                assert(before.contains((sum - last) as u64) <==> (sum - last) as u64 <= limit
                    && reachable(numbers.drop_last(), (sum - last) as nat));
            }
        }
        assert(shifted(before, last, limit).subset_of(
            Set::new(|sum: u64| 0 <= sum <= limit),
        ));
        lemma_sums_up_to_finite(limit);
        vstd::set_lib::lemma_len_subset(
            shifted(before, last, limit),
            Set::new(|sum: u64| 0 <= sum <= limit),
        );
    }
}

/// There are finitely many sums up to a limit.
proof fn lemma_sums_up_to_finite(limit: u64)
    ensures
        Set::new(|sum: u64| 0 <= sum <= limit).finite(),
    decreases limit,
{
    let all = Set::new(|sum: u64| 0 <= sum <= limit);
    if limit == 0 {
        assert(all =~= set![0u64]);
    } else {
        let fewer = Set::new(|sum: u64| 0 <= sum <= (limit - 1) as u64);
        lemma_sums_up_to_finite((limit - 1) as u64);
        assert(all =~= fewer.insert(limit));
    }
}

/// Entry `j` of the boolean row tells whether the sum `j` can be made.
pub proof fn lemma_bool_row(numbers: Seq<u64>, width: nat)
    ensures
        bool_row(numbers, width).len() == width,
        forall|j: int|
            0 <= j < width ==> (#[trigger] bool_row(numbers, width)[j] <==> reachable(
                numbers,
                j as nat,
            )),
    decreases numbers.len(),
{
    if numbers.len() > 0 {
        lemma_bool_row(numbers.drop_last(), width);
    }
}

/// A set row holds exactly the sums up to its limit that some of the numbers
/// sum to; a boolean row marks exactly the sums that some of the numbers sum
/// to.
pub proof fn lemma_rows_are_subset_sums(numbers: Seq<u64>, limit: u64, width: nat)
    ensures
        forall|sum: u64| #[trigger]
            sums_row(numbers, limit).contains(sum) <==> sum <= limit && is_subset_sum(
                numbers,
                sum as nat,
            ),
        bool_row(numbers, width).len() == width,
        forall|sum: int|
            0 <= sum < width ==> (#[trigger] bool_row(numbers, width)[sum] <==> is_subset_sum(
                numbers,
                sum as nat,
            )),
{
    lemma_sums_row(numbers, limit);
    lemma_bool_row(numbers, width);
    assert forall|sum: u64| #[trigger]
        sums_row(numbers, limit).contains(sum) <==> sum <= limit && is_subset_sum(
            numbers,
            sum as nat,
        ) by {
        lemma_reachable_is_subset_sum(numbers, sum as nat);
    }
    assert forall|sum: int| 0 <= sum < width implies (#[trigger] bool_row(numbers, width)[sum]
        <==> is_subset_sum(numbers, sum as nat)) by {
        lemma_reachable_is_subset_sum(numbers, sum as nat);
    }
}

/// A sum can be made exactly when the set row for that limit holds it, and
/// exactly when a boolean row that reaches it marks it.
pub proof fn lemma_rows_hold_subset_sums(numbers: Seq<u64>, limit: u64, width: nat)
    requires
        limit < width,
    ensures
        sums_row(numbers, limit).contains(limit) == is_subset_sum(numbers, limit as nat),
        bool_row(numbers, width)[limit as int] == is_subset_sum(numbers, limit as nat),
{
    lemma_sums_row(numbers, limit);
    lemma_bool_row(numbers, width);
    lemma_reachable_is_subset_sum(numbers, limit as nat);
}

/// The two formulations agree on every sum up to the sum of all numbers: the
/// set row for the numbers holds the sum exactly when the boolean row for the
/// numbers marks it.
pub proof fn lemma_formulations_agree(numbers: Seq<u64>, sum: u64)
    requires
        sum <= total_sum(numbers),
    ensures
        sums_row(numbers, sum).contains(sum) == bool_row(numbers, total_sum(numbers) + 1)[sum as int],
        forall|limit: u64|
            sum <= limit ==> #[trigger] sums_row(numbers, limit).contains(sum) == bool_row(
                numbers,
                total_sum(numbers) + 1,
            )[sum as int],
{
    lemma_rows_hold_subset_sums(numbers, sum, total_sum(numbers) + 1);
    assert forall|limit: u64| sum <= limit implies #[trigger] sums_row(numbers, limit).contains(
        sum,
    ) == bool_row(numbers, total_sum(numbers) + 1)[sum as int] by {
        lemma_sums_row(numbers, limit);
        lemma_bool_row(numbers, total_sum(numbers) + 1);
    }
}

/// The sums of one set row.
struct SumsRow {
    /// The sums, each once, in the order in which they were first made.
    sums: Vec<u64>,
    /// The same sums, for looking one up.
    seen: HashSet<u64>,
}

impl SumsRow {
    /// Whether both fields hold the same sums, and the list each sum once.
    spec fn wf(self) -> bool {
        &&& self.sums@.no_duplicates()
        &&& forall|sum: u64| self.sums@.contains(sum) <==> self.seen@.contains(sum)
    }

    /// The row for no numbers.
    fn first(limit: u64) -> (row: SumsRow)
        ensures
            row.wf(),
            row.seen@ == sums_row(Seq::empty(), limit),
    {
        broadcast use group_hash_axioms;

        let mut sums: Vec<u64> = Vec::new();
        let mut seen: HashSet<u64> = HashSet::new();
        sums.push(0);
        seen.insert(0);
        let row = SumsRow { sums, seen };
        assert(row.seen@ =~= set![0u64]);
        assert(row.sums@ =~= seq![0u64]);
        assert forall|sum: u64| row.sums@.contains(sum) <==> row.seen@.contains(sum) by {
            assert(row.sums@[0] == 0);
        }
        row
    }

    /// Turns the row for some numbers into the row for these numbers and
    /// `number`.
    fn add_number(&mut self, number: u64, limit: u64)
        requires
            old(self).wf(),
        ensures
            final(self).wf(),
            final(self).seen@ == old(self).seen@.union(shifted(old(self).seen@, number, limit)),
    {
        broadcast use group_hash_axioms;

        let ghost before = self.seen@;
        let ghost listed = self.sums@;
        let count: usize = self.sums.len();
        let mut j: usize = 0;
        while j < count
            invariant
                j <= count,
                count == listed.len(),
                count <= self.sums.len(),
                self.sums@.take(count as int) == listed,
                self.wf(),
                forall|sum: u64| listed.contains(sum) <==> before.contains(sum),
                forall|sum: u64| #[trigger]
                    self.seen@.contains(sum) <==> before.contains(sum) || exists|k: int|
                        0 <= k < j && listed[k] + number == sum && sum <= limit,
            decreases count - j,
        {
            let sum: u64 = self.sums[j];
            assert(sum == listed[j as int]) by {
                assert(self.sums@.take(count as int)[j as int] == self.sums@[j as int]);
            }
            let ghost seen_before = self.seen@;
            let ghost sums_before = self.sums@;
            match sum.checked_add(number) {
                Some(raised) => {
                    if raised <= limit {
                        let is_new = self.seen.insert(raised);
                        if is_new {
                            self.sums.push(raised);
                            assert(self.sums@.take(count as int) =~= sums_before.take(
                                count as int,
                            ));
                            assert forall|other: u64|
                                self.sums@.contains(other) <==> self.seen@.contains(other) by {
                                if sums_before.contains(other) {
                                    let k = choose|k: int|
                                        0 <= k < sums_before.len() && sums_before[k] == other;
                                    assert(self.sums@[k] == other);
                                }
                                assert(self.sums@[sums_before.len() as int] == raised);
                                if self.sums@.contains(other) && other != raised {
                                    let k = choose|k: int|
                                        0 <= k < self.sums@.len() && self.sums@[k] == other;
                                    assert(sums_before[k] == other);
                                }
                            }
                            assert(self.sums@.no_duplicates()) by {
                                assert forall|a: int, b: int|
                                    0 <= a < self.sums@.len() && 0 <= b < self.sums@.len() && a
                                        != b implies self.sums@[a] != self.sums@[b] by {
                                    if a < sums_before.len() && b < sums_before.len() {
                                        assert(sums_before[a] != sums_before[b]);
                                    } else if a < sums_before.len() {
                                        assert(sums_before.contains(sums_before[a]));
                                    } else if b < sums_before.len() {
                                        assert(sums_before.contains(sums_before[b]));
                                    }
                                }
                            }
                        }
                        assert(listed[j as int] + number == raised);
                    }
                },
                None => {},
            }
            assert forall|other: u64| #[trigger]
                self.seen@.contains(other) <==> before.contains(other) || exists|k: int|
                    0 <= k < j + 1 && listed[k] + number == other && other <= limit by {
                if self.seen@.contains(other) && !before.contains(other) {
                    if seen_before.contains(other) {
                        let k = choose|k: int|
                            0 <= k < j && listed[k] + number == other && other <= limit;
                        assert(0 <= k < j + 1 && listed[k] + number == other && other <= limit);
                    } else {
                        assert(listed[j as int] + number == other && other <= limit);
                    }
                }
                if exists|k: int|
                    0 <= k < j + 1 && listed[k] + number == other && other <= limit {
                    let k = choose|k: int|
                        0 <= k < j + 1 && listed[k] + number == other && other <= limit;
                    if k < j {
                        assert(seen_before.contains(other));
                    }
                }
            }
            j = j + 1;
        }
        assert(self.seen@ =~= before.union(shifted(before, number, limit))) by {
            assert forall|other: u64|
                self.seen@.contains(other) <==> before.union(
                    shifted(before, number, limit),
                ).contains(other) by {
                if shifted(before, number, limit).contains(other) {
                    let source = (other - number) as u64;
                    assert(listed.contains(source));
                    let k = choose|k: int| 0 <= k < listed.len() && listed[k] == source;
                    assert(0 <= k < j && listed[k] + number == other && other <= limit);
                }
                if self.seen@.contains(other) && !before.contains(other) {
                    let k = choose|k: int|
                        0 <= k < j && listed[k] + number == other && other <= limit;
                    assert(listed.contains(listed[k]));
                }
            }
        }
    }

    /// The sums as a set of their own.
    fn to_set(&self) -> (set: HashSet<u64>)
        requires
            self.wf(),
        ensures
            set@ == self.seen@,
    {
        broadcast use group_hash_axioms;

        let mut set: HashSet<u64> = HashSet::new();
        let mut j: usize = 0;
        while j < self.sums.len()
            invariant
                j <= self.sums.len(),
                forall|sum: u64| #[trigger]
                    set@.contains(sum) <==> self.sums@.take(j as int).contains(sum),
            decreases self.sums.len() - j,
        {
            let ghost shorter = self.sums@.take(j as int);
            let ghost longer = self.sums@.take(j + 1);
            set.insert(self.sums[j]);
            assert forall|sum: u64| #[trigger] set@.contains(sum) <==> longer.contains(sum) by {
                assert(longer =~= shorter.push(self.sums@[j as int]));
                if shorter.contains(sum) {
                    let k = choose|k: int| 0 <= k < shorter.len() && shorter[k] == sum;
                    assert(longer[k] == sum);
                }
                if longer.contains(sum) {
                    let k = choose|k: int| 0 <= k < longer.len() && longer[k] == sum;
                    if k < j {
                        assert(shorter[k] == sum);
                    }
                }
                assert(longer[j as int] == self.sums@[j as int]);
            }
            j = j + 1;
        }
        assert(self.sums@.take(j as int) =~= self.sums@);
        assert(set@ =~= self.seen@);
        set
    }
}

/// Solves the subset sum problem with rows of reachable sums: whether some
/// of the numbers sum to `limit`. Sums above `limit` are not kept.
pub fn subset_sum_set(numbers: &[u64], limit: u64) -> (reached: bool)
    ensures
        reached == sums_row(numbers@, limit).contains(limit),
        reached == is_subset_sum(numbers@, limit as nat),
{
    broadcast use group_hash_axioms;

    let mut row = SumsRow::first(limit);
    let mut i: usize = 0;
    assert(numbers@.take(0) =~= Seq::<u64>::empty());
    while i < numbers.len()
        invariant
            i <= numbers.len(),
            row.wf(),
            row.seen@ == sums_row(numbers@.take(i as int), limit),
        decreases numbers.len() - i,
    {
        assert(numbers@.take(i + 1).drop_last() =~= numbers@.take(i as int));
        row.add_number(numbers[i], limit);
        i = i + 1;
    }
    proof {
        assert(numbers@.take(i as int) =~= numbers@);
        lemma_rows_hold_subset_sums(numbers@, limit, limit as nat + 1);
    }
    row.seen.contains(&limit)
}

/// The table of the set formulation: row `i` holds the sums that can be made
/// from the first `i` numbers. With a limit, sums above it are not kept.
pub fn subset_sum_row_sum_set(numbers: &[u64], limit: Option<u64>) -> (table: Vec<HashSet<u64>>)
    ensures
        table.len() == numbers.len() + 1,
        forall|i: int|
            0 <= i <= numbers.len() ==> (#[trigger] table[i])@ == sums_row(
                numbers@.take(i),
                match limit {
                    Some(limit) => limit,
                    None => u64::MAX,
                },
            ),
        forall|i: int, sum: u64|
            0 <= i <= numbers.len() ==> (#[trigger] table[i]@.contains(sum) <==> is_subset_sum(
                numbers@.take(i),
                sum as nat,
            ) && (limit matches Some(limit) ==> sum <= limit)),
{
    let limit: u64 = match limit {
        Some(limit) => limit,
        None => u64::MAX,
    };
    let mut table: Vec<HashSet<u64>> = Vec::new();
    let mut row = SumsRow::first(limit);
    let mut i: usize = 0;
    assert(numbers@.take(0) =~= Seq::<u64>::empty());
    table.push(row.to_set());
    while i < numbers.len()
        invariant
            i <= numbers.len(),
            row.wf(),
            row.seen@ == sums_row(numbers@.take(i as int), limit),
            table.len() == i + 1,
            forall|k: int|
                0 <= k <= i ==> (#[trigger] table[k])@ == sums_row(numbers@.take(k), limit),
        decreases numbers.len() - i,
    {
        assert(numbers@.take(i + 1).drop_last() =~= numbers@.take(i as int));
        row.add_number(numbers[i], limit);
        table.push(row.to_set());
        i = i + 1;
    }
    proof {
        assert forall|i: int, sum: u64| 0 <= i <= numbers.len() implies (
        #[trigger] table[i]@.contains(sum) <==> is_subset_sum(numbers@.take(i), sum as nat)
            && sum <= limit) by {
            lemma_rows_are_subset_sums(numbers@.take(i), limit, 0);
        }
    }
    table
}

/// The row for no numbers, `width` entries wide.
fn first_flags(width: usize) -> (row: Vec<bool>)
    requires
        width > 0,
    ensures
        row@ == bool_row(Seq::empty(), width as nat),
{
    let mut row: Vec<bool> = Vec::new();
    row.push(true);
    while row.len() < width
        invariant
            0 < row.len() <= width,
            forall|j: int| 0 <= j < row.len() ==> #[trigger] row[j] == (j == 0),
        decreases width - row.len(),
    {
        row.push(false);
    }
    assert(row@ =~= bool_row(Seq::empty(), width as nat));
    row
}

/// The row that follows `row` when `number` joins the numbers.
fn next_flags(row: &Vec<bool>, number: u64) -> (next: Vec<bool>)
    ensures
        next@ == Seq::new(
            row.len() as nat,
            |j: int| row@[j] || (number <= j && row@[j - number]),
        ),
{
    let width: usize = row.len();
    let mut next: Vec<bool> = Vec::new();
    let mut j: usize = 0;
    while j < width
        invariant
            j <= width,
            width == row.len(),
            next.len() == j,
            forall|k: int|
                0 <= k < j ==> #[trigger] next[k] == (row@[k] || (number <= k && row@[k
                    - number])),
        decreases width - j,
    {
        let marked = row[j] || (number <= j as u64 && row[j - number as usize]);
        next.push(marked);
        j = j + 1;
    }
    assert(next@ =~= Seq::new(
        row.len() as nat,
        |j: int| row@[j] || (number <= j && row@[j - number]),
    ));
    next
}

/// Solves the subset sum problem with rows of booleans: whether some of the
/// numbers sum to `limit`. A row has an entry for each sum up to `limit`.
pub fn subset_sum_vec(numbers: &[u64], limit: u64) -> (reached: bool)
    requires
        limit < usize::MAX,
    ensures
        reached == bool_row(numbers@, limit as nat + 1)[limit as int],
        reached == is_subset_sum(numbers@, limit as nat),
{
    let width: usize = limit as usize + 1;
    let mut row = first_flags(width);
    let mut i: usize = 0;
    assert(numbers@.take(0) =~= Seq::<u64>::empty());
    while i < numbers.len()
        invariant
            i <= numbers.len(),
            width == limit + 1,
            row@ == bool_row(numbers@.take(i as int), width as nat),
        decreases numbers.len() - i,
    {
        proof {
            assert(numbers@.take(i + 1).drop_last() =~= numbers@.take(i as int));
            lemma_bool_row(numbers@.take(i as int), width as nat);
        }
        row = next_flags(&row, numbers[i]);
        i = i + 1;
    }
    proof {
        assert(numbers@.take(i as int) =~= numbers@);
        lemma_bool_row(numbers@, width as nat);
        lemma_rows_hold_subset_sums(numbers@, limit, width as nat);
    }
    row[limit as usize]
}

/// The table of the boolean formulation: row `i` tells for each sum up to
/// the sum of all numbers whether it can be made from the first `i` numbers.
pub fn subset_sum_full_bool_table(numbers: &[u64]) -> (table: Vec<Vec<bool>>)
    requires
        total_sum(numbers@) < usize::MAX,
    ensures
        table.len() == numbers.len() + 1,
        forall|i: int|
            0 <= i <= numbers.len() ==> (#[trigger] table[i])@ == bool_row(
                numbers@.take(i),
                total_sum(numbers@) + 1,
            ),
        forall|i: int, sum: int|
            0 <= i <= numbers.len() && 0 <= sum <= total_sum(numbers@) ==> (
            #[trigger] table[i]@[sum] <==> is_subset_sum(numbers@.take(i), sum as nat)),
{
    let mut total: usize = 0;
    let mut i: usize = 0;
    while i < numbers.len()
        invariant
            i <= numbers.len(),
            total == total_sum(numbers@.take(i as int)),
            total_sum(numbers@) < usize::MAX,
        decreases numbers.len() - i,
    {
        proof {
            assert(numbers@.take(i + 1).drop_last() =~= numbers@.take(i as int));
            lemma_total_sum_prefix(numbers@, i + 1);
        }
        total = total + numbers[i] as usize;
        i = i + 1;
    }
    assert(numbers@.take(i as int) =~= numbers@);
    let width: usize = total + 1;
    let mut table: Vec<Vec<bool>> = Vec::new();
    table.push(first_flags(width));
    let mut i: usize = 0;
    assert(numbers@.take(0) =~= Seq::<u64>::empty());
    while i < numbers.len()
        invariant
            i <= numbers.len(),
            width == total_sum(numbers@) + 1,
            table.len() == i + 1,
            forall|k: int|
                0 <= k <= i ==> (#[trigger] table[k])@ == bool_row(
                    numbers@.take(k),
                    width as nat,
                ),
        decreases numbers.len() - i,
    {
        proof {
            assert(numbers@.take(i + 1).drop_last() =~= numbers@.take(i as int));
            lemma_bool_row(numbers@.take(i as int), width as nat);
        }
        let next = next_flags(&table[i], numbers[i]);
        table.push(next);
        i = i + 1;
    }
    proof {
        assert forall|i: int, sum: int|
            0 <= i <= numbers.len() && 0 <= sum <= total_sum(numbers@) implies (
        #[trigger] table[i]@[sum] <==> is_subset_sum(numbers@.take(i), sum as nat)) by {
            lemma_rows_are_subset_sums(numbers@.take(i), 0, width as nat);
        }
    }
    table
}

/// The numbers at the front sum to no more than all numbers.
pub proof fn lemma_total_sum_prefix(numbers: Seq<u64>, n: int)
    requires
        0 <= n <= numbers.len(),
    ensures
        total_sum(numbers.take(n)) <= total_sum(numbers),
    decreases numbers.len(),
{
    if n == numbers.len() {
        assert(numbers.take(n) =~= numbers);
    } else {
        assert(numbers.drop_last().take(n) =~= numbers.take(n));
        lemma_total_sum_prefix(numbers.drop_last(), n);
    }
}

} // verus!

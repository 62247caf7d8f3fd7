//! Replacing the characters that a first set does not hold by the characters
//! of a second set, taken in turn.

use vstd::prelude::*;
use crate::error::SemanticError;
use crate::operand::{supply, well_counted, CharRepetition, Operand};
use crate::text::{push_char, str_to_chars};
use crate::translate::{expansion, flatten, lemma_flatten_index, lemma_take_step};

verus! {

/// How many operands with a count stand in a row from `from` on.
pub open spec fn counted_run(ops: Seq<Operand>, from: int) -> nat
    decreases ops.len() - from,
{
    if from < 0 || from >= ops.len() || supply(ops[from]) is None {
        0
    } else {
        1 + counted_run(ops, from + 1)
    }
}

/// `from + counted_run(ops, from)` is the index of the first operand without
/// end at or after `from`, or the length of `ops`.
pub proof fn lemma_counted_run(ops: Seq<Operand>, from: int)
    requires
        0 <= from <= ops.len(),
    ensures
        from + counted_run(ops, from) <= ops.len(),
        from + counted_run(ops, from) < ops.len() ==> supply(
            ops[from + counted_run(ops, from)],
        ) is None,
        forall|j: int| from <= j < from + counted_run(ops, from) ==> supply(#[trigger] ops[j]) is Some,
    decreases ops.len() - from,
{
    if from < ops.len() && supply(ops[from]) is Some {
        lemma_counted_run(ops, from + 1);
    }
}

/// The character that stands in for the replacement number `k`, counted
/// from zero. The operands are used in order, each as often as its count
/// says. An operand without end, once reached, is used for ever; where there
/// is none, the set is gone through again and again.
pub open spec fn replacement_at(set2: Seq<Operand>, k: nat) -> char {
    let stop = counted_run(set2, 0) as int;
    let cycle = flatten(set2.take(stop));
    if stop < set2.len() {
        if k < cycle.len() {
            cycle[k as int]
        } else {
            set2[stop].stored_char()
        }
    } else {
        cycle[k as int % cycle.len() as int]
    }
}

/// How many of the first `n` characters of `input` the first set does not
/// hold.
pub open spec fn replaced_before(input: Seq<char>, set1: Seq<Operand>, n: int) -> nat
    decreases n,
{
    if n <= 0 {
        0
    } else {
        replaced_before(input, set1, n - 1) + if Operand::member(set1, input[n - 1]) {
            0nat
        } else {
            1nat
        }
    }
}

/// The character at index `at` of the complemented text: the character of
/// the input where the first set holds it, else the replacement whose turn
/// it is.
pub open spec fn complemented_at(
    input: Seq<char>,
    set1: Seq<Operand>,
    set2: Seq<Operand>,
    at: int,
) -> char {
    if Operand::member(set1, input[at]) {
        input[at]
    } else {
        replacement_at(set2, replaced_before(input, set1, at))
    }
}

/// The complemented text.
pub open spec fn complemented(input: Seq<char>, set1: Seq<Operand>, set2: Seq<Operand>) -> Seq<
    char,
> {
    Seq::new(input.len(), |at: int| complemented_at(input, set1, set2, at))
}

/// The complemented text, or the error where a replacement is needed and
/// the second set has no operand.
pub open spec fn complement_result(
    input: Seq<char>,
    set1: Seq<Operand>,
    set2: Seq<Operand>,
) -> Result<Seq<char>, SemanticError> {
    if set2.len() == 0 && replaced_before(input, set1, input.len() as int) > 0 {
        Err(SemanticError::IndexingFailed)
    } else {
        Ok(complemented(input, set1, set2))
    }
}

/// The longer the beginning of the input, the more has been replaced.
proof fn lemma_replaced_grows(input: Seq<char>, set1: Seq<Operand>, n: int, m: int)
    requires
        n <= m,
    ensures
        replaced_before(input, set1, n) <= replaced_before(input, set1, m),
    decreases m - n,
{
    if n < m {
        lemma_replaced_grows(input, set1, n, m - 1);
    }
}

/// The counter that an operand starts with: its count, or the greatest number
/// where it has none.
spec fn counter_of(op: Operand) -> usize {
    match supply(op) {
        Some(n) => n as usize,
        None => usize::MAX,
    }
}

/// A counter for each operand, at its start.
fn fresh_counters(ops: &[Operand]) -> (counters: Vec<usize>)
    ensures
        counters.len() == ops.len(),
        forall|j: int| 0 <= j < ops.len() ==> counters[j] == counter_of(#[trigger] ops[j]),
{
    let mut counters: Vec<usize> = Vec::new();
    let mut i: usize = 0;
    while i < ops.len()
        invariant
            i <= ops.len(),
            counters.len() == i,
            forall|j: int| 0 <= j < i ==> counters[j] == counter_of(#[trigger] ops[j]),
        decreases ops.len() - i,
    {
        let counter = match &ops[i] {
            Operand::Char(ch) => match ch.char_repetition {
                CharRepetition::N(n) => n,
                CharRepetition::AsManyAsNeeded => usize::MAX,
            },
            Operand::Equiv(_) => usize::MAX,
        };
        counters.push(counter);
        i += 1;
    }
    counters
}

/// Where the cursor and its counters stand after `k` replacements.
spec fn cursor_at(set2: Seq<Operand>, index: int, counters: Seq<usize>, k: nat) -> bool {
    let stop = counted_run(set2, 0) as int;
    let cycle = flatten(set2.take(stop));
    &&& 0 <= index < set2.len()
    &&& index <= stop
    &&& counters.len() == set2.len()
    &&& forall|j: int| index < j < set2.len() ==> counters[j] == counter_of(#[trigger] set2[j])
    &&& index == stop ==> k >= cycle.len()
    &&& index < stop ==> {
        let used = flatten(set2.take(index)).len() + counter_of(set2[index]) - counters[index];
        &&& 1 <= counters[index] <= counter_of(set2[index])
        &&& stop < set2.len() ==> k == used
        &&& stop == set2.len() ==> k as int % cycle.len() as int == used
    }
}

/// Counting on by one in a cycle of `c`: one more, or back to zero.
proof fn lemma_next_in_cycle(k: int, c: int)
    requires
        0 <= k,
        0 < c,
    ensures
        (k + 1) % c == if k % c + 1 == c {
            0
        } else {
            k % c + 1
        },
{
    let q = k / c;
    let r = k % c;
    vstd::arithmetic::div_mod::lemma_fundamental_div_mod(k, c);
    vstd::arithmetic::div_mod::lemma_mod_division_less_than_divisor(k, c);
    if r + 1 == c {
        assert(k + 1 == (q + 1) * c + 0) by (nonlinear_arith)
            requires
                k == c * q + r,
                r + 1 == c,
        ;
        vstd::arithmetic::div_mod::lemma_fundamental_div_mod_converse(k + 1, c, q + 1, 0);
    } else {
        assert(k + 1 == q * c + (r + 1)) by (nonlinear_arith)
            requires
                k == c * q + r,
        ;
        vstd::arithmetic::div_mod::lemma_fundamental_div_mod_converse(k + 1, c, q, r + 1);
    }
}

/// The operand under the cursor gives the replacement whose turn it is.
proof fn lemma_cursor_gives(set2: Seq<Operand>, index: int, counters: Seq<usize>, k: nat)
    requires
        well_counted(set2),
        cursor_at(set2, index, counters, k),
    ensures
        set2[index].stored_char() == replacement_at(set2, k),
{
    let stop = counted_run(set2, 0) as int;
    let prefix = set2.take(stop);
    let cycle = flatten(prefix);
    lemma_counted_run(set2, 0);
    if index < stop {
        let within = counter_of(set2[index]) - counters[index];
        assert(prefix[index] == set2[index]);
        assert(prefix.take(index) == set2.take(index));
        lemma_flatten_index(prefix, index, within);
        if stop == set2.len() {
            vstd::arithmetic::div_mod::lemma_mod_division_less_than_divisor(
                k as int,
                cycle.len() as int,
            );
        }
    }
}

/// Where the cursor stands after one more replacement.
proof fn lemma_cursor_moves(
    set2: Seq<Operand>,
    index: int,
    counters: Seq<usize>,
    k: nat,
    next_index: int,
    next_counters: Seq<usize>,
)
    requires
        well_counted(set2),
        cursor_at(set2, index, counters, k),
        next_counters.len() == set2.len(),
        match supply(set2[index]) {
            None => next_index == index && next_counters == counters,
            Some(_) => if counters[index] > 1 {
                next_index == index && next_counters == counters.update(
                    index,
                    (counters[index] - 1) as usize,
                )
            } else if index + 1 < set2.len() {
                next_index == index + 1 && next_counters == counters.update(index, 0usize)
            } else {
                next_index == 0 && forall|j: int|
                    0 <= j < set2.len() ==> next_counters[j] == counter_of(#[trigger] set2[j])
            },
        },
    ensures
        cursor_at(set2, next_index, next_counters, k + 1),
{
    let stop = counted_run(set2, 0) as int;
    let prefix = set2.take(stop);
    let cycle = flatten(prefix);
    lemma_counted_run(set2, 0);
    if index < stop {
        let within = counter_of(set2[index]) - counters[index];
        assert(prefix[index] == set2[index]);
        assert(prefix.take(index) == set2.take(index));
        lemma_flatten_index(prefix, index, within);
        lemma_take_step(set2, index);
        assert(flatten(set2.take(index + 1)).len() == flatten(set2.take(index)).len()
            + expansion(set2[index]).len());
        if stop == set2.len() {
            lemma_next_in_cycle(k as int, cycle.len() as int);
            assert(prefix == set2);
        }
        if counters[index] == 1 {
            if index + 1 < set2.len() {
                if index + 1 < stop {
                    assert(supply(set2[index + 1]) is Some);
                    assert(prefix[index + 1] == set2[index + 1]);
                    assert(prefix.take(index + 1) == set2.take(index + 1));
                    lemma_flatten_index(prefix, index + 1, 0);
                } else {
                    assert(set2.take(index + 1) == prefix);
                }
            } else {
                assert(set2.take(index + 1) == set2);
                assert(set2.take(0).len() == 0);
                if 0 < stop {
                    assert(supply(set2[0]) is Some);
                }
            }
        }
    }
}

/// Replaces each character of `input` that the set `chars1` does not hold by
/// a character of `chars2`, and keeps the others. The operands of `chars2`
/// take turns: each is used as often as its count says, then the next one,
/// and after the last the first again. An operand without a count, or an
/// equivalence class, is used from then on.
pub fn complement_chars(input: &str, chars1: &[Operand], chars2: &[Operand]) -> (r: Result<
    String,
    SemanticError,
>)
    requires
        well_counted(chars2@),
    ensures
        match r {
            Ok(text) => complement_result(input@, chars1@, chars2@) == Ok::<
                Seq<char>,
                SemanticError,
            >(text@),
            Err(e) => complement_result(input@, chars1@, chars2@) == Err::<
                Seq<char>,
                SemanticError,
            >(e),
        },
{
    let chars = str_to_chars(input);
    let mut depleted = fresh_counters(chars2);
    let mut result = String::new();
    let mut chars2_index: usize = 0;
    let mut at: usize = 0;
    proof {
        lemma_counted_run(chars2@, 0);
        assert(chars2@.take(0).len() == 0);
    }
    while at < chars.len()
        invariant
            at <= chars.len(),
            chars@ == input@,
            well_counted(chars2@),
            result@.len() == at,
            forall|j: int|
                0 <= j < at ==> result@[j] == complemented_at(input@, chars1@, chars2@, j),
            chars2.len() == 0 ==> replaced_before(input@, chars1@, at as int) == 0,
            chars2.len() > 0 ==> cursor_at(
                chars2@,
                chars2_index as int,
                depleted@,
                replaced_before(input@, chars1@, at as int),
            ),
        decreases chars.len() - at,
    {
        let ch = chars[at];
        if Operand::contains(chars1, &ch) {
            push_char(&mut result, ch);
        } else {
            if chars2.len() == 0 {
                proof {
                    lemma_replaced_grows(input@, chars1@, at + 1, input@.len() as int);
                }
                return Err(SemanticError::IndexingFailed);
            }
            let ghost k = replaced_before(input@, chars1@, at as int);
            let ghost before = depleted@;
            let ghost index = chars2_index as int;
            proof {
                lemma_cursor_gives(chars2@, index, before, k);
            }
            push_char(&mut result, chars2[chars2_index].char());
            let counted = match &chars2[chars2_index] {
                Operand::Char(char) => match char.char_repetition {
                    CharRepetition::N(_) => true,
                    CharRepetition::AsManyAsNeeded => false,
                },
                Operand::Equiv(_) => false,
            };
            if counted {
                proof {
                    lemma_counted_run(chars2@, 0);
                }
                let decremented = depleted[chars2_index] - 1;
                depleted.set(chars2_index, decremented);
                if decremented == 0 {
                    chars2_index += 1;
                    if chars2_index >= chars2.len() {
                        chars2_index = 0;
                        depleted = fresh_counters(chars2);
                    }
                }
            }
            proof {
                lemma_cursor_moves(chars2@, index, before, k, chars2_index as int, depleted@);
            }
        }
        at += 1;
    }
    proof {
        assert(result@ =~= complemented(input@, chars1@, chars2@));
    }
    Ok(result)
}

/// `sorted` with `op` put in behind the last operand whose character is
/// not greater than that of `op`.
pub open spec fn insert_by_char(sorted: Seq<Operand>, op: Operand) -> Seq<Operand>
    decreases sorted.len(),
{
    if sorted.len() > 0 && sorted.last().stored_char() > op.stored_char() {
        insert_by_char(sorted.drop_last(), op).push(sorted.last())
    } else {
        sorted.push(op)
    }
}

/// The operands in the order of their characters; operands with the same
/// character keep their order.
pub open spec fn sort_by_char(ops: Seq<Operand>) -> Seq<Operand>
    decreases ops.len(),
{
    if ops.len() == 0 {
        Seq::empty()
    } else {
        insert_by_char(sort_by_char(ops.drop_last()), ops.last())
    }
}

/// Whether the characters of the operands never go down.
pub open spec fn sorted_by_char(ops: Seq<Operand>) -> bool {
    forall|i: int, j: int|
        0 <= i <= j < ops.len() ==> (#[trigger] ops[i]).stored_char() <= (
        #[trigger] ops[j]).stored_char()
}

/// The operands that store the character `c`, in their order.
pub open spec fn with_char(ops: Seq<Operand>, c: char) -> Seq<Operand>
    decreases ops.len(),
{
    if ops.len() == 0 {
        Seq::empty()
    } else if ops.last().stored_char() == c {
        with_char(ops.drop_last(), c).push(ops.last())
    } else {
        with_char(ops.drop_last(), c)
    }
}

/// Putting an operand into a sorted sequence puts it at the one index
/// behind which every character is greater and before which none is.
proof fn lemma_insert_position(sorted: Seq<Operand>, op: Operand, at: int)
    requires
        0 <= at <= sorted.len(),
        forall|j: int| at <= j < sorted.len() ==> (#[trigger] sorted[j]).stored_char()
            > op.stored_char(),
        at > 0 ==> sorted[at - 1].stored_char() <= op.stored_char(),
    ensures
        insert_by_char(sorted, op) == sorted.insert(at, op),
    decreases sorted.len(),
{
    if at == sorted.len() {
        assert(sorted.push(op) == sorted.insert(at, op));
    } else {
        let init = sorted.drop_last();
        assert(sorted[sorted.len() - 1].stored_char() > op.stored_char());
        assert forall|j: int| at <= j < init.len() implies (#[trigger] init[j]).stored_char()
            > op.stored_char() by {
            assert(init[j] == sorted[j]);
        }
        lemma_insert_position(init, op, at);
        assert(init.insert(at, op).push(sorted.last()) == sorted.insert(at, op));
    }
}

/// Putting an operand into a sorted sequence keeps it sorted, adds the
/// operand behind those with its character, and keeps the counts positive.
proof fn lemma_insert_by_char(sorted: Seq<Operand>, op: Operand, c: char)
    requires
        sorted_by_char(sorted),
    ensures
        sorted_by_char(insert_by_char(sorted, op)),
        insert_by_char(sorted, op).len() == sorted.len() + 1,
        with_char(insert_by_char(sorted, op), c) == if op.stored_char() == c {
            with_char(sorted, c).push(op)
        } else {
            with_char(sorted, c)
        },
        well_counted(sorted) && supply(op) != Some(0nat) ==> well_counted(
            insert_by_char(sorted, op),
        ),
        forall|i: int|
            0 <= i < sorted.len() + 1 ==> (#[trigger] insert_by_char(sorted, op)[i]) == op || (
            exists|j: int| 0 <= j < sorted.len() && sorted[j] == insert_by_char(sorted, op)[i]),
    decreases sorted.len(),
{
    let out = insert_by_char(sorted, op);
    if sorted.len() > 0 && sorted.last().stored_char() > op.stored_char() {
        let init = sorted.drop_last();
        let last = sorted.last();
        assert(sorted_by_char(init)) by {
            assert forall|i: int, j: int| 0 <= i <= j < init.len() implies (
            #[trigger] init[i]).stored_char() <= (#[trigger] init[j]).stored_char() by {
                assert(init[i] == sorted[i] && init[j] == sorted[j]);
            }
        }
        lemma_insert_by_char(init, op, c);
        let inner = insert_by_char(init, op);
        assert(out == inner.push(last));
        assert(out.drop_last() == inner);
        assert forall|i: int| 0 <= i < out.len() implies (#[trigger] out[i]) == op || (exists|
            j: int,
        | 0 <= j < sorted.len() && sorted[j] == out[i]) by {
            if i < inner.len() {
                assert(out[i] == inner[i]);
                if inner[i] != op {
                    let j = choose|j: int| 0 <= j < init.len() && init[j] == inner[i];
                    assert(sorted[j] == out[i]);
                }
            } else {
                assert(sorted[sorted.len() - 1] == out[i]);
            }
        }
        assert forall|i: int, j: int| 0 <= i <= j < out.len() implies (
        #[trigger] out[i]).stored_char() <= (#[trigger] out[j]).stored_char() by {
            if j == out.len() - 1 {
                if i < j {
                    assert(out[i] == inner[i]);
                    if inner[i] != op {
                        let k = choose|k: int| 0 <= k < init.len() && init[k] == inner[i];
                        assert(sorted[k].stored_char() <= sorted[sorted.len() - 1].stored_char());
                    }
                }
            } else {
                assert(out[i] == inner[i] && out[j] == inner[j]);
            }
        }
        if well_counted(sorted) && supply(op) != Some(0nat) {
            assert(well_counted(init)) by {
                assert forall|i: int| 0 <= i < init.len() implies supply(#[trigger] init[i])
                    != Some(0nat) by {
                    assert(init[i] == sorted[i]);
                }
            }
            assert forall|i: int| 0 <= i < out.len() implies supply(#[trigger] out[i]) != Some(
                0nat,
            ) by {
                if i < inner.len() {
                    assert(out[i] == inner[i]);
                } else {
                    assert(out[i] == sorted[sorted.len() - 1]);
                }
            }
        }
    } else {
        assert(out == sorted.push(op));
        assert(out.drop_last() == sorted);
        assert forall|i: int| 0 <= i < out.len() implies (#[trigger] out[i]) == op || (exists|
            j: int,
        | 0 <= j < sorted.len() && sorted[j] == out[i]) by {
            if i < sorted.len() {
                assert(sorted[i] == out[i]);
            }
        }
        assert forall|i: int, j: int| 0 <= i <= j < out.len() implies (
        #[trigger] out[i]).stored_char() <= (#[trigger] out[j]).stored_char() by {
            if j == out.len() - 1 {
                if i < j {
                    assert(out[i] == sorted[i]);
                    assert(sorted[i].stored_char() <= sorted[sorted.len() - 1].stored_char());
                }
            } else {
                assert(out[i] == sorted[i] && out[j] == sorted[j]);
            }
        }
        if well_counted(sorted) && supply(op) != Some(0nat) {
            assert forall|i: int| 0 <= i < out.len() implies supply(#[trigger] out[i]) != Some(
                0nat,
            ) by {
                if i < sorted.len() {
                    assert(out[i] == sorted[i]);
                }
            }
        }
    }
}

/// Sorting by character gives a sequence of the same length whose characters
/// never go down.
pub proof fn lemma_sort_by_char_sorted(ops: Seq<Operand>)
    ensures
        sorted_by_char(sort_by_char(ops)),
        sort_by_char(ops).len() == ops.len(),
        well_counted(ops) ==> well_counted(sort_by_char(ops)),
    decreases ops.len(),
{
    if ops.len() > 0 {
        let init = ops.drop_last();
        lemma_sort_by_char_sorted(init);
        lemma_insert_by_char(sort_by_char(init), ops.last(), ops.last().stored_char());
        if well_counted(ops) {
            assert(well_counted(init)) by {
                assert forall|i: int| 0 <= i < init.len() implies supply(#[trigger] init[i])
                    != Some(0nat) by {
                    assert(init[i] == ops[i]);
                }
            }
            assert(supply(ops[ops.len() - 1]) != Some(0nat));
        }
    }
}

/// Sorting by character is stable: the operands that store a given
/// character are the same before and after, and in the same order.
pub proof fn lemma_sort_by_char_stable(ops: Seq<Operand>, c: char)
    ensures
        with_char(sort_by_char(ops), c) == with_char(ops, c),
    decreases ops.len(),
{
    if ops.len() > 0 {
        let init = ops.drop_last();
        lemma_sort_by_char_stable(init, c);
        lemma_sort_by_char_sorted(init);
        lemma_insert_by_char(sort_by_char(init), ops.last(), c);
    }
}

/// A copy of `ops` in the order of the characters that the operands store;
/// operands with the same character keep their order.
pub fn sort_operands(ops: &[Operand]) -> (sorted: Vec<Operand>)
    ensures
        sorted@ == sort_by_char(ops@),
{
    let mut sorted: Vec<Operand> = Vec::new();
    let mut i: usize = 0;
    while i < ops.len()
        invariant
            i <= ops.len(),
            sorted@ == sort_by_char(ops@.take(i as int)),
        decreases ops.len() - i,
    {
        let op = ops[i];
        let key = op.char();
        let mut at: usize = sorted.len();
        while at > 0 && sorted[at - 1].char() > key
            invariant
                at <= sorted.len(),
                key == op.stored_char(),
                forall|j: int| at <= j < sorted.len() ==> (#[trigger] sorted@[j]).stored_char()
                    > key,
            decreases at,
        {
            at -= 1;
        }
        proof {
            lemma_insert_position(sorted@, op, at as int);
            lemma_take_step(ops@, i as int);
        }
        sorted.insert(at, op);
        i += 1;
    }
    proof {
        assert(ops@.take(i as int) == ops@);
    }
    sorted
}

/// The second set as complementing uses it: sorted by character where the
/// complement is taken by value, else as it is.
pub open spec fn replacements(set2: Seq<Operand>, sorted: bool) -> Seq<Operand> {
    if sorted {
        sort_by_char(set2)
    } else {
        set2
    }
}

/// Complements `input` as [`complement_chars`] does, with the operands of
/// `chars2` first put in the order of their characters where `sorted` says
/// so.
pub fn complement(input: &str, chars1: &[Operand], chars2: &[Operand], sorted: bool) -> (r: Result<
    String,
    SemanticError,
>)
    requires
        well_counted(chars2@),
    ensures
        match r {
            Ok(text) => complement_result(input@, chars1@, replacements(chars2@, sorted)) == Ok::<
                Seq<char>,
                SemanticError,
            >(text@),
            Err(e) => complement_result(input@, chars1@, replacements(chars2@, sorted)) == Err::<
                Seq<char>,
                SemanticError,
            >(e),
        },
{
    if sorted {
        let set2 = sort_operands(chars2);
        proof {
            lemma_sort_by_char_sorted(chars2@);
        }
        complement_chars(input, chars1, set2.as_slice())
    } else {
        complement_chars(input, chars1, chars2)
    }
}

} // verus!

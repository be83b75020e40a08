//! Things known by a sixteen-bit number: surfaces, cache slots, counts.
//!
//! A walk over a table is a walk from the lowest number to the highest.

use std::collections::BTreeMap;

use vstd::prelude::*;
use vstd::std_specs::cmp::OrdSpec;
use vstd::std_specs::iter::IteratorSpec;

verus! {

/// Values by number.
pub struct Table<T> {
    rows: BTreeMap<u16, T>,
}

/// The numbers below `n` that are in use, lowest first.
pub open spec fn numbers_below<V>(all: Map<u16, V>, n: nat) -> Seq<u16>
    decreases n,
{
    if n == 0 {
        seq![]
    } else {
        let before = numbers_below(all, (n - 1) as nat);
        if all.contains_key((n - 1) as u16) { before.push((n - 1) as u16) } else { before }
    }
}

/// Whether numbers are in order, with none of them twice.
spec fn ascending(numbers: Seq<u16>) -> bool {
    forall|i: int, j: int| 0 <= i < j < numbers.len() ==> numbers[i] < numbers[j]
}

/// The numbers in use are listed in order, each once.
proof fn numbers_are_listed<V>(all: Map<u16, V>, n: nat)
    requires
        n <= 0x1_0000,
    ensures
        ascending(numbers_below(all, n)),
        numbers_below(all, n).len() <= n,
        forall|i: int|
            0 <= i < numbers_below(all, n).len() ==> {
                &&& #[trigger] numbers_below(all, n)[i] < n
                &&& all.contains_key(numbers_below(all, n)[i])
            },
        forall|k: u16| k < n && #[trigger] all.contains_key(k) ==> numbers_below(all, n).contains(k),
    decreases n,
{
    if n > 0 {
        numbers_are_listed(all, (n - 1) as nat);
        let before = numbers_below(all, (n - 1) as nat);
        let after = numbers_below(all, n);
        assert forall|k: u16| k < n && #[trigger] all.contains_key(k) implies after.contains(k) by {
            if k < n - 1 {
                let i = before.index_of(k);
                assert(before.contains(k));
                assert(after[i] == k);
            } else {
                assert(after[after.len() - 1] == k);
            }
        }
    }
}

/// There is one list of the numbers in use that is in order.
proof fn one_list_is_in_order<V>(all: Map<u16, V>, list: Seq<u16>, n: nat)
    requires
        n <= 0x1_0000,
        ascending(list),
        forall|i: int| 0 <= i < list.len() ==> #[trigger] list[i] < n && all.contains_key(list[i]),
        forall|k: u16| k < n && #[trigger] all.contains_key(k) ==> list.contains(k),
    ensures
        list == numbers_below(all, n),
    decreases n,
{
    if n == 0 {
        if list.len() > 0 {
            assert(list[0] < n);
        }
        assert(list =~= numbers_below(all, n));
    } else {
        let top = (n - 1) as u16;
        if all.contains_key(top) {
            let before = list.drop_last();
            assert(list.contains(top));
            let at = list.index_of(top);
            if at < list.len() - 1 {
                assert(list[at] < list[list.len() - 1]);
            }
            assert(list[list.len() - 1] == top);
            assert forall|i: int| 0 <= i < before.len() implies #[trigger] before[i] < n - 1 && all.contains_key(
                before[i],
            ) by {
                assert(list[i] < list[list.len() - 1]);
            }
            assert forall|k: u16| k < n - 1 && #[trigger] all.contains_key(k) implies before.contains(k) by {
                assert(list.contains(k));
                let i = list.index_of(k);
                assert(before[i] == k);
            }
            one_list_is_in_order(all, before, (n - 1) as nat);
            assert(list =~= before.push(top));
        } else {
            assert forall|i: int| 0 <= i < list.len() implies #[trigger] list[i] < n - 1 && all.contains_key(
                list[i],
            ) by {
                assert(list[i] != top);
            }
            one_list_is_in_order(all, list, (n - 1) as nat);
        }
    }
}

impl<T: View> View for Table<T> {
    type V = Map<u16, T::V>;

    closed spec fn view(&self) -> Map<u16, T::V> {
        self.rows@.map_values(|value: T| value@)
    }
}

impl<T: View> Table<T> {
    /// The numbers in use, lowest first.
    pub open spec fn numbers(&self) -> Seq<u16> {
        numbers_below(self@, 0x1_0000)
    }

    /// The numbers are those of the contents, each once, lowest first.
    pub open spec fn listed(&self) -> bool {
        &&& forall|i: int| 0 <= i < self.numbers().len() ==> self@.contains_key(#[trigger] self.numbers()[i])
        &&& forall|number: u16| #[trigger] self@.contains_key(number) ==> self.numbers().contains(number)
        &&& forall|i: int, j: int|
            0 <= i < j < self.numbers().len() ==> (#[trigger] self.numbers()[i]) < (#[trigger] self.numbers()[j])
    }

    pub fn new() -> (table: Table<T>)
        ensures
            table@ == Map::<u16, T::V>::empty(),
    {
        let table = Table { rows: BTreeMap::new() };
        assert(table@ =~= Map::<u16, T::V>::empty());
        table
    }

    /// The numbers in use, lowest first.
    pub fn list(&self) -> (list: Vec<u16>)
        ensures
            list@ == self.numbers(),
            list@.len() <= 0x1_0000,
            self.listed(),
    {
        broadcast use vstd::laws_cmp::group_laws_cmp;

        let mut list: Vec<u16> = Vec::new();
        let rows = self.rows.iter();
        let ghost keys = rows.remaining().map_values(|kv: (&u16, &T)| *kv.0);
        assert(vstd::std_specs::btree::increasing_seq(keys));
        proof {
            assert forall|i: int, j: int| 0 <= i < j < keys.len() implies keys[i] < keys[j] by {
                assert(keys[i].cmp_spec(&keys[j]) is Less);
            }
            assert forall|k: u16| #[trigger] self@.contains_key(k) implies keys.contains(k) by {
                assert(self.rows@.contains_key(k));
                let i = rows.remaining().index_of((&k, &self.rows@[k]));
                assert(keys[i] == k);
            }
        }
        for row in it: rows
            invariant
                it.seq() == self.rows.iter().remaining(),
                keys == it.seq().map_values(|kv: (&u16, &T)| *kv.0),
                list@ == keys.take(it.index()),
        {
            list.push(*row.0);
            assert(list@ =~= keys.take(it.index() + 1));
        }
        proof {
            assert(list@ =~= keys);
            numbers_are_listed(self@, 0x1_0000);
            one_list_is_in_order(self@, list@, 0x1_0000);
        }
        list
    }


    /// How many numbers are in use.
    pub fn len(&self) -> (n: usize)
        ensures
            n == self@.len(),
    {
        broadcast use vstd::laws_cmp::group_laws_cmp;

        assert(self@.dom() =~= self.rows@.dom());
        self.rows.len()
    }

    pub fn get(&self, number: u16) -> (found: Option<&T>)
        ensures
            match found {
                Some(value) => self@.contains_key(number) && self@[number] == value@,
                None => !self@.contains_key(number),
            },
    {
        broadcast use vstd::laws_cmp::group_laws_cmp;

        self.rows.get(&number)
    }

    pub fn contains_key(&self, number: u16) -> (there: bool)
        ensures
            there == self@.contains_key(number),
    {
        self.get(number).is_some()
    }

    /// The value under a number in use.
    pub fn value(&self, number: u16) -> (value: &T)
        requires
            self@.contains_key(number),
        ensures
            value@ == self@[number],
    {
        self.get(number).unwrap()
    }

    /// Take a number's value out.
    pub fn remove(&mut self, number: u16) -> (found: Option<T>)
        ensures
            final(self)@ == old(self)@.remove(number),
            match found {
                Some(value) => old(self)@.contains_key(number) && old(self)@[number] == value@,
                None => !old(self)@.contains_key(number),
            },
    {
        broadcast use vstd::laws_cmp::group_laws_cmp;

        let found = self.rows.remove(&number);
        assert(self@ =~= old(self)@.remove(number));
        found
    }

    /// Put a value under a number, in place of any that is there, and hand that back.
    pub fn insert(&mut self, number: u16, value: T) -> (was: Option<T>)
        ensures
            final(self)@ == old(self)@.insert(number, value@),
            match was {
                Some(value) => old(self)@.contains_key(number) && old(self)@[number] == value@,
                None => !old(self)@.contains_key(number),
            },
    {
        broadcast use vstd::laws_cmp::group_laws_cmp;

        let was = self.rows.insert(number, value);
        assert(self@ =~= old(self)@.insert(number, value@));
        was
    }
}

/// What the values under numbers below `n` weigh together.
pub open spec fn weight_below<V>(all: Map<u16, V>, weigh: spec_fn(u16, V) -> nat, n: nat) -> nat
    decreases n,
{
    if n == 0 {
        0
    } else {
        let number = (n - 1) as u16;
        weight_below(all, weigh, (n - 1) as nat) + if all.contains_key(number) {
            weigh(number, all[number])
        } else {
            0
        }
    }
}

/// What all the values weigh together.
pub open spec fn weight<V>(all: Map<u16, V>, weigh: spec_fn(u16, V) -> nat) -> nat {
    weight_below(all, weigh, 0x1_0000)
}

/// Numbers that are not in use weigh nothing.
pub proof fn gap_weighs_nothing<V>(all: Map<u16, V>, weigh: spec_fn(u16, V) -> nat, low: nat, high: nat)
    requires
        low <= high <= 0x1_0000,
        forall|k: u16| low <= k < high ==> !#[trigger] all.contains_key(k),
    ensures
        weight_below(all, weigh, high) == weight_below(all, weigh, low),
    decreases high - low,
{
    if low < high {
        gap_weighs_nothing(all, weigh, low, (high - 1) as nat);
        assert(!all.contains_key((high - 1) as u16));
    }
}

/// What the numbers before the `i`th of a table weigh, as a walk over it adds it up.
pub open spec fn weight_before<T: View>(table: &Table<T>, weigh: spec_fn(u16, T::V) -> nat, i: int) -> nat {
    weight_below(
        table@,
        weigh,
        if i < table.numbers().len() { table.numbers()[i] as nat } else { 0x1_0000 },
    )
}

/// A walk over a table adds up what everything in it weighs.
pub proof fn walk_weighs<T: View>(table: &Table<T>, weigh: spec_fn(u16, T::V) -> nat)
    requires
        table.listed(),
    ensures
        weight_before(table, weigh, 0) == 0,
        weight_before(table, weigh, table.numbers().len() as int) == weight(table@, weigh),
        forall|i: int|
            0 <= i < table.numbers().len() ==> #[trigger] weight_before(table, weigh, i + 1) == weight_before(
                table,
                weigh,
                i,
            ) + weigh(table.numbers()[i], table@[table.numbers()[i]]),
{
    let numbers = table.numbers();
    let first: nat = if numbers.len() > 0 { numbers[0] as nat } else { 0x1_0000 };
    assert forall|k: u16| 0 <= k < first implies !#[trigger] table@.contains_key(k) by {
        if table@.contains_key(k) {
            let j = choose|j: int| 0 <= j < numbers.len() && numbers[j] == k;
            assert(numbers[0] <= numbers[j]);
        }
    }
    gap_weighs_nothing(table@, weigh, 0, first);
    assert forall|i: int| 0 <= i < numbers.len() implies #[trigger] weight_before(table, weigh, i + 1)
        == weight_before(table, weigh, i) + weigh(numbers[i], table@[numbers[i]]) by {
        let low = (numbers[i] + 1) as nat;
        let high: nat = if i + 1 < numbers.len() { numbers[i + 1] as nat } else { 0x1_0000 };
        assert(i + 1 < numbers.len() ==> numbers[i] < numbers[i + 1]);
        assert forall|k: u16| low <= k < high implies !#[trigger] table@.contains_key(k) by {
            if table@.contains_key(k) {
                let j = choose|j: int| 0 <= j < numbers.len() && numbers[j] == k;
                if j <= i {
                    assert(numbers[j] <= numbers[i]);
                } else if i + 1 < j {
                    assert(numbers[i + 1] < numbers[j]);
                }
            }
        }
        gap_weighs_nothing(table@, weigh, low, high);
        assert((low - 1) as u16 == numbers[i]);
    }
}

/// An empty table weighs nothing.
pub proof fn nothing_weighs_nothing<V>(weigh: spec_fn(u16, V) -> nat, n: nat)
    ensures
        weight_below(Map::<u16, V>::empty(), weigh, n) == 0,
    decreases n,
{
    if n > 0 {
        nothing_weighs_nothing(weigh, (n - 1) as nat);
    }
}

/// What a value weighs where there is one.
pub open spec fn weight_at<V>(all: Map<u16, V>, weigh: spec_fn(u16, V) -> nat, k: u16) -> nat {
    if all.contains_key(k) { weigh(k, all[k]) } else { 0 }
}

proof fn insert_weighs_below<V>(all: Map<u16, V>, weigh: spec_fn(u16, V) -> nat, k: u16, v: V, n: nat)
    requires
        n <= 0x1_0000,
    ensures
        n <= k ==> weight_below(all.insert(k, v), weigh, n) == weight_below(all, weigh, n),
        n > k ==> weight_below(all.insert(k, v), weigh, n) + weight_at(all, weigh, k) == weight_below(
            all,
            weigh,
            n,
        ) + weigh(k, v),
    decreases n,
{
    if n > 0 {
        insert_weighs_below(all, weigh, k, v, (n - 1) as nat);
        let number = (n - 1) as u16;
        if number != k {
            assert(all.insert(k, v).contains_key(number) == all.contains_key(number));
        }
    }
}

/// A value put under a number adds what it weighs, in place of what was there.
pub proof fn insert_weighs<V>(all: Map<u16, V>, weigh: spec_fn(u16, V) -> nat, k: u16, v: V)
    ensures
        weight(all.insert(k, v), weigh) + weight_at(all, weigh, k) == weight(all, weigh) + weigh(k, v),
{
    insert_weighs_below(all, weigh, k, v, 0x1_0000);
}

/// A value taken out takes what it weighed with it.
pub proof fn remove_weighs<V>(all: Map<u16, V>, weigh: spec_fn(u16, V) -> nat, k: u16)
    ensures
        weight(all.remove(k), weigh) + weight_at(all, weigh, k) == weight(all, weigh),
{
    if all.contains_key(k) {
        insert_weighs(all.remove(k), weigh, k, all[k]);
        assert(all.remove(k).insert(k, all[k]) =~= all);
    } else {
        assert(all.remove(k) =~= all);
    }
}

/// Leaving a number out of the weighing is weighing what is left without it.
pub proof fn leaving_out_weighs<V>(
    all: Map<u16, V>,
    weigh: spec_fn(u16, V) -> nat,
    unless: spec_fn(u16, V) -> nat,
    k: u16,
)
    requires
        forall|n: u16, v: V| #[trigger] unless(n, v) == (if n == k { 0 } else { weigh(n, v) }),
    ensures
        weight(all, unless) == weight(all.remove(k), weigh),
{
    leaving_out_below(all, weigh, unless, k, 0x1_0000);
}

proof fn leaving_out_below<V>(
    all: Map<u16, V>,
    weigh: spec_fn(u16, V) -> nat,
    unless: spec_fn(u16, V) -> nat,
    k: u16,
    n: nat,
)
    requires
        n <= 0x1_0000,
        forall|n: u16, v: V| #[trigger] unless(n, v) == (if n == k { 0 } else { weigh(n, v) }),
    ensures
        weight_below(all, unless, n) == weight_below(all.remove(k), weigh, n),
    decreases n,
{
    if n > 0 {
        leaving_out_below(all, weigh, unless, k, (n - 1) as nat);
        let number = (n - 1) as u16;
        if number != k {
            assert(all.remove(k).contains_key(number) == all.contains_key(number));
        }
    }
}

/// Values that weigh the same one by one weigh the same together.
pub proof fn same_weights<V>(a: Map<u16, V>, b: Map<u16, V>, weigh: spec_fn(u16, V) -> nat, n: nat)
    requires
        n <= 0x1_0000,
        forall|k: u16| #[trigger] weight_at(a, weigh, k) == weight_at(b, weigh, k),
    ensures
        weight_below(a, weigh, n) == weight_below(b, weigh, n),
    decreases n,
{
    if n > 0 {
        same_weights(a, b, weigh, (n - 1) as nat);
        assert(weight_at(a, weigh, (n - 1) as u16) == weight_at(b, weigh, (n - 1) as u16));
    }
}

/// Something done with every value under a number below `n`, lowest number first.
pub open spec fn fold_below<V, S>(all: Map<u16, V>, step: spec_fn(S, u16, V) -> S, start: S, n: nat) -> S
    decreases n,
{
    if n == 0 {
        start
    } else {
        let number = (n - 1) as u16;
        let before = fold_below(all, step, start, (n - 1) as nat);
        if all.contains_key(number) { step(before, number, all[number]) } else { before }
    }
}

/// Something done with every value, lowest number first.
pub open spec fn fold<V, S>(all: Map<u16, V>, step: spec_fn(S, u16, V) -> S, start: S) -> S {
    fold_below(all, step, start, 0x1_0000)
}

/// Nothing is done for numbers that are not in use.
pub proof fn gap_does_nothing<V, S>(
    all: Map<u16, V>,
    step: spec_fn(S, u16, V) -> S,
    start: S,
    low: nat,
    high: nat,
)
    requires
        low <= high <= 0x1_0000,
        forall|k: u16| low <= k < high ==> !#[trigger] all.contains_key(k),
    ensures
        fold_below(all, step, start, high) == fold_below(all, step, start, low),
    decreases high - low,
{
    if low < high {
        gap_does_nothing(all, step, start, low, (high - 1) as nat);
        assert(!all.contains_key((high - 1) as u16));
    }
}

/// What a walk over a table has done before its `i`th row.
pub open spec fn fold_before<T: View, S>(
    table: &Table<T>,
    step: spec_fn(S, u16, T::V) -> S,
    start: S,
    i: int,
) -> S {
    fold_below(
        table@,
        step,
        start,
        if i < table.numbers().len() { table.numbers()[i] as nat } else { 0x1_0000 },
    )
}

/// A walk over a table does what is done with every value, lowest number first.
pub proof fn walk_folds<T: View, S>(table: &Table<T>, step: spec_fn(S, u16, T::V) -> S, start: S)
    requires
        table.listed(),
    ensures
        fold_before(table, step, start, 0) == start,
        fold_before(table, step, start, table.numbers().len() as int) == fold(table@, step, start),
        forall|i: int|
            0 <= i < table.numbers().len() ==> #[trigger] fold_before(table, step, start, i + 1) == step(
                fold_before(table, step, start, i),
                table.numbers()[i],
                table@[table.numbers()[i]],
            ),
{
    let numbers = table.numbers();
    let first: nat = if numbers.len() > 0 { numbers[0] as nat } else { 0x1_0000 };
    assert forall|k: u16| 0 <= k < first implies !#[trigger] table@.contains_key(k) by {
        if table@.contains_key(k) {
            let j = choose|j: int| 0 <= j < numbers.len() && numbers[j] == k;
            assert(numbers[0] <= numbers[j]);
        }
    }
    gap_does_nothing(table@, step, start, 0, first);
    assert forall|i: int| 0 <= i < numbers.len() implies #[trigger] fold_before(table, step, start, i + 1)
        == step(fold_before(table, step, start, i), numbers[i], table@[numbers[i]]) by {
        let low = (numbers[i] + 1) as nat;
        let high: nat = if i + 1 < numbers.len() { numbers[i + 1] as nat } else { 0x1_0000 };
        assert(i + 1 < numbers.len() ==> numbers[i] < numbers[i + 1]);
        assert forall|k: u16| low <= k < high implies !#[trigger] table@.contains_key(k) by {
            if table@.contains_key(k) {
                let j = choose|j: int| 0 <= j < numbers.len() && numbers[j] == k;
                if j <= i {
                    assert(numbers[j] <= numbers[i]);
                } else if i + 1 < j {
                    assert(numbers[i + 1] < numbers[j]);
                }
            }
        }
        gap_does_nothing(table@, step, start, low, high);
        assert((low - 1) as u16 == numbers[i]);
    }
}

} // verus!

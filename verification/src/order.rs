//! Putting rows in order.
//!
//! Every table the viewer draws is ordered by some keys, with the position a row
//! already has as the last word, so that paging through equal rows never repeats
//! or skips one. There is exactly one such order.

use vstd::prelude::*;
use vstd::set_lib::*;

verus! {

/// Rows and which of any two of them comes first.
pub trait RowKeys: Sized {
    /// How many rows there are.
    spec fn rows(&self) -> nat;

    /// Whether row `a` comes before row `b`.
    spec fn precedes(&self, a: int, b: int) -> bool;

    /// Of two different rows one comes first, and what comes first is passed on.
    proof fn one_comes_first(&self, a: int, b: int, c: int)
        requires
            0 <= a < self.rows(),
            0 <= b < self.rows(),
            0 <= c < self.rows(),
        ensures
            !self.precedes(a, a),
            a != b ==> self.precedes(a, b) || self.precedes(b, a),
            self.precedes(a, b) && self.precedes(b, c) ==> self.precedes(a, c),
    ;

    fn len(&self) -> (len: usize)
        ensures
            len == self.rows(),
    ;

    fn comes_first(&self, a: usize, b: usize) -> (first: bool)
        requires
            a < self.rows(),
            b < self.rows(),
        ensures
            first == self.precedes(a as int, b as int),
    ;
}

/// Whether every row of `order` comes before all the rows after it.
pub open spec fn increasing<K: RowKeys>(keys: K, order: Seq<usize>) -> bool {
    forall|i: int, j: int|
        #![trigger order[i], order[j]]
        0 <= i < j < order.len() ==> keys.precedes(order[i] as int, order[j] as int)
}

/// Whether `order` lists the rows behind `keys`, each exactly once, in order.
pub open spec fn in_order<K: RowKeys>(keys: K, order: Seq<usize>) -> bool {
    &&& order.len() == keys.rows()
    &&& forall|i: int| 0 <= i < order.len() ==> #[trigger] order[i] < keys.rows()
    &&& increasing(keys, order)
}

/// The one order of the rows behind `keys`.
pub open spec fn ranking<K: RowKeys>(keys: K) -> Seq<usize> {
    choose|order: Seq<usize>| in_order(keys, order)
}

/// The rows of a page: `limit` of them from `offset` on, as far as there are any.
pub open spec fn page_of<T>(rows: Seq<T>, offset: int, limit: int) -> Seq<T> {
    let start = if offset < rows.len() {
        offset
    } else {
        rows.len() as int
    };
    let end = if start + limit < rows.len() {
        start + limit
    } else {
        rows.len() as int
    };
    rows.subrange(start, end)
}

/// Row positions, ordered by their keys.
pub fn sort_rows<K: RowKeys>(keys: &K) -> (order: Vec<usize>)
    ensures
        in_order(*keys, order@),
        order@ == ranking(*keys),
{
    let order = sort_between(keys, 0, keys.len());
    proof {
        law_order_is_unique(*keys, order@, ranking(*keys));
    }
    order
}

/// Where a page of `len` rows starts and ends.
pub fn page_bounds(len: usize, offset: usize, limit: usize) -> (bounds: (usize, usize))
    ensures
        bounds.0 <= bounds.1 <= len,
        bounds.0 == (if offset < len {
            offset
        } else {
            len
        }),
        bounds.1 == (if bounds.0 + limit < len {
            (bounds.0 + limit) as usize
        } else {
            len
        }),
{
    let start: usize = if offset < len {
        offset
    } else {
        len
    };
    let end: usize = if limit < len - start {
        start + limit
    } else {
        len
    };
    (start, end)
}

/// Rows `low` up to `high`, in order.
fn sort_between<K: RowKeys>(keys: &K, low: usize, high: usize) -> (order: Vec<usize>)
    requires
        low <= high <= keys.rows(),
    ensures
        order@.len() == high - low,
        forall|i: int| 0 <= i < order@.len() ==> low <= #[trigger] order@[i] < high,
        increasing(*keys, order@),
    decreases high - low,
{
    if high - low == 0 {
        return Vec::new();
    }
    if high - low == 1 {
        let mut one: Vec<usize> = Vec::new();
        one.push(low);
        return one;
    }
    let middle: usize = low + (high - low) / 2;
    let left = sort_between(keys, low, middle);
    let right = sort_between(keys, middle, high);
    merge(keys, &left, &right)
}

/// Two ordered runs as one. No row is in both.
fn merge<K: RowKeys>(keys: &K, left: &Vec<usize>, right: &Vec<usize>) -> (order: Vec<usize>)
    requires
        left@.len() + right@.len() <= keys.rows(),
        forall|i: int| 0 <= i < left@.len() ==> #[trigger] left@[i] < keys.rows(),
        forall|i: int| 0 <= i < right@.len() ==> #[trigger] right@[i] < keys.rows(),
        forall|i: int, j: int|
            #![trigger left@[i], right@[j]]
            0 <= i < left@.len() && 0 <= j < right@.len() ==> left@[i] < right@[j],
        increasing(*keys, left@),
        increasing(*keys, right@),
    ensures
        order@.len() == left@.len() + right@.len(),
        forall|k: int|
            0 <= k < order@.len() ==> left@.contains(#[trigger] order@[k]) || right@.contains(
                order@[k],
            ),
        increasing(*keys, order@),
{
    let mut order: Vec<usize> = Vec::new();
    let mut l: usize = 0;
    let mut r: usize = 0;
    while l < left.len() || r < right.len()
        invariant
            l <= left@.len(),
            r <= right@.len(),
            order@.len() == l + r,
            left@.len() + right@.len() <= keys.rows(),
            forall|i: int| 0 <= i < left@.len() ==> #[trigger] left@[i] < keys.rows(),
            forall|i: int| 0 <= i < right@.len() ==> #[trigger] right@[i] < keys.rows(),
            forall|i: int, j: int|
                #![trigger left@[i], right@[j]]
                0 <= i < left@.len() && 0 <= j < right@.len() ==> left@[i] < right@[j],
            increasing(*keys, left@),
            increasing(*keys, right@),
            increasing(*keys, order@),
            forall|k: int|
                0 <= k < order@.len() ==> left@.contains(#[trigger] order@[k]) || right@.contains(
                    order@[k],
                ),
            forall|k: int, i: int|
                #![trigger order@[k], left@[i]]
                0 <= k < order@.len() && l <= i < left@.len() ==> keys.precedes(
                    order@[k] as int,
                    left@[i] as int,
                ),
            forall|k: int, j: int|
                #![trigger order@[k], right@[j]]
                0 <= k < order@.len() && r <= j < right@.len() ==> keys.precedes(
                    order@[k] as int,
                    right@[j] as int,
                ),
        decreases left@.len() + right@.len() - l - r,
    {
        let ghost before = order@;
        if r >= right.len() || (l < left.len() && keys.comes_first(left[l], right[r])) {
            let next: usize = left[l];
            proof {
                assert forall|j: int| r <= j < right@.len() implies keys.precedes(
                    next as int,
                    #[trigger] right@[j] as int,
                ) by {
                    keys.one_comes_first(next as int, right@[r as int] as int, right@[j] as int);
                }
            }
            order.push(next);
            l = l + 1;
        } else {
            let next: usize = right[r];
            proof {
                assert forall|i: int| l <= i < left@.len() implies keys.precedes(
                    next as int,
                    #[trigger] left@[i] as int,
                ) by {
                    assert(left@[l as int] < right@[r as int]);
                    keys.one_comes_first(left@[l as int] as int, next as int, next as int);
                    keys.one_comes_first(next as int, left@[l as int] as int, left@[i] as int);
                }
            }
            order.push(next);
            r = r + 1;
        }
    }
    order
}

/// No row is listed twice.
pub proof fn law_no_row_is_listed_twice<K: RowKeys>(keys: K, order: Seq<usize>)
    requires
        in_order(keys, order),
    ensures
        order.no_duplicates(),
{
    assert forall|i: int, j: int| 0 <= i < order.len() && 0 <= j < order.len() && i != j implies order[i]
        != order[j] by {
        keys.one_comes_first(order[i] as int, order[i] as int, order[i] as int);
        if i < j {
            assert(keys.precedes(order[i] as int, order[j] as int));
        } else {
            assert(keys.precedes(order[j] as int, order[i] as int));
        }
    }
}

/// Every row is listed.
pub proof fn law_every_row_is_listed<K: RowKeys>(keys: K, order: Seq<usize>, row: usize)
    requires
        in_order(keys, order),
        row < keys.rows(),
    ensures
        order.contains(row),
{
    law_no_row_is_listed_twice(keys, order);
    lemma_every_position(order, row);
}

/// As many positions as there are rows, none of them twice, are all of them.
pub proof fn lemma_every_position(order: Seq<usize>, row: usize)
    requires
        order.no_duplicates(),
        forall|i: int| 0 <= i < order.len() ==> #[trigger] order[i] < order.len(),
        row < order.len(),
    ensures
        order.contains(row),
{
    let listed = order.map_values(|r: usize| r as int);
    assert(listed.no_duplicates()) by {
        assert forall|i: int, j: int|
            0 <= i < listed.len() && 0 <= j < listed.len() && i != j implies listed[i]
            != listed[j] by {
            assert(listed[i] == order[i] as int);
            assert(listed[j] == order[j] as int);
        }
    }
    listed.unique_seq_to_set();
    let all = set_int_range(0, order.len() as int);
    lemma_int_range(0, order.len() as int);
    assert(listed.to_set().subset_of(all)) by {
        assert forall|r: int| listed.to_set().contains(r) implies all.contains(r) by {
            let i = choose|i: int| 0 <= i < listed.len() && listed[i] == r;
            assert(listed[i] == order[i] as int);
        }
    }
    lemma_subset_equality(listed.to_set(), all);
    assert(listed.to_set().contains(row as int));
    let i = choose|i: int| 0 <= i < listed.len() && listed[i] == row as int;
    assert(order[i] == row);
}

/// There is only one order.
pub proof fn law_order_is_unique<K: RowKeys>(keys: K, a: Seq<usize>, b: Seq<usize>)
    requires
        in_order(keys, a),
    ensures
        in_order(keys, b) ==> a == b,
        ranking(keys) == a,
{
    let c = ranking(keys);
    assert(in_order(keys, c));
    lemma_orders_agree(keys, a, c, a.len());
    assert(a =~= c);
    if in_order(keys, b) {
        lemma_orders_agree(keys, a, b, a.len());
        assert(a =~= b);
    }
}

proof fn lemma_orders_agree<K: RowKeys>(keys: K, a: Seq<usize>, b: Seq<usize>, upto: nat)
    requires
        in_order(keys, a),
        in_order(keys, b),
        upto <= a.len(),
    ensures
        forall|k: int| 0 <= k < upto ==> #[trigger] a[k] == b[k],
    decreases upto,
{
    if upto > 0 {
        let k = upto - 1;
        lemma_orders_agree(keys, a, b, k as nat);
        law_every_row_is_listed(keys, b, a[k]);
        law_every_row_is_listed(keys, a, b[k]);
        let m = choose|m: int| 0 <= m < b.len() && b[m] == a[k];
        let n = choose|n: int| 0 <= n < a.len() && a[n] == b[k];
        keys.one_comes_first(a[k] as int, b[k] as int, a[k] as int);
        keys.one_comes_first(b[k] as int, a[k] as int, b[k] as int);
        if m < k {
            assert(a[m] == b[m]);
            assert(keys.precedes(a[m] as int, a[k] as int));
        }
        if n < k {
            assert(a[n] == b[n]);
            assert(keys.precedes(b[n] as int, b[k] as int));
        }
    }
}

/// Rows ordered by a number, then by another, then by where they stand.
pub struct NumberKeys {
    pub keys: Vec<(u64, u64)>,
}

/// Whether row `a` comes before row `b`, going by these numbers.
pub open spec fn smaller(keys: Seq<(u64, u64)>, a: int, b: int) -> bool {
    ||| keys[a].0 < keys[b].0
    ||| keys[a].0 == keys[b].0 && keys[a].1 < keys[b].1
    ||| keys[a].0 == keys[b].0 && keys[a].1 == keys[b].1 && a < b
}

impl RowKeys for NumberKeys {
    open spec fn rows(&self) -> nat {
        self.keys@.len()
    }

    open spec fn precedes(&self, a: int, b: int) -> bool {
        smaller(self.keys@, a, b)
    }

    proof fn one_comes_first(&self, a: int, b: int, c: int) {
    }

    fn len(&self) -> (len: usize) {
        self.keys.len()
    }

    fn comes_first(&self, a: usize, b: usize) -> (first: bool) {
        let x = self.keys[a];
        let y = self.keys[b];
        x.0 < y.0 || (x.0 == y.0 && (x.1 < y.1 || (x.1 == y.1 && a < b)))
    }
}

/// A key that orders the other way round.
pub open spec fn flipped(key: u64) -> u64 {
    (u64::MAX - key) as u64
}

/// A key, turned round where the order descends.
pub open spec fn turned(key: u64, descending: bool) -> u64 {
    if descending {
        flipped(key)
    } else {
        key
    }
}

/// Whether `order` is the one order of rows with these number keys.
pub open spec fn ordered_by(keys: Seq<(u64, u64)>, order: Seq<usize>) -> bool {
    &&& order.len() == keys.len()
    &&& forall|i: int| 0 <= i < order.len() ==> #[trigger] order[i] < keys.len()
    &&& forall|i: int, j: int|
        #![trigger order[i], order[j]]
        0 <= i < j < order.len() ==> smaller(keys, order[i] as int, order[j] as int)
}

/// The one order of rows with these number keys.
pub open spec fn order_of(keys: Seq<(u64, u64)>) -> Seq<usize> {
    choose|order: Seq<usize>| ordered_by(keys, order)
}

/// Row positions, ordered by numbers.
pub fn sort_by_numbers(keys: Vec<(u64, u64)>) -> (order: Vec<usize>)
    ensures
        order@ == order_of(keys@),
        ordered_by(keys@, order@),
{
    let keys = NumberKeys { keys };
    let order = sort_rows(&keys);
    proof {
        law_number_order_is_unique(keys, order@);
    }
    order
}

/// There is only one order of rows with number keys.
pub proof fn law_number_order_is_unique(keys: NumberKeys, order: Seq<usize>)
    requires
        ordered_by(keys.keys@, order),
    ensures
        order_of(keys.keys@) == order,
        ranking(keys) == order,
{
    let chosen = order_of(keys.keys@);
    assert(ordered_by(keys.keys@, chosen));
    assert(in_order(keys, order));
    assert(in_order(keys, chosen));
    law_order_is_unique(keys, order, chosen);
}

/// The rows listed in `order` that stand on a page.
pub fn page_rows(order: &Vec<usize>, offset: usize, limit: usize) -> (page: Vec<usize>)
    ensures
        page@ == page_of(order@, offset as int, limit as int),
{
    let (start, end) = page_bounds(order.len(), offset, limit);
    let mut page: Vec<usize> = Vec::new();
    let mut at: usize = start;
    while at < end
        invariant
            start <= at <= end <= order@.len(),
            page@ == order@.subrange(start as int, at as int),
        decreases end - at,
    {
        page.push(order[at]);
        at = at + 1;
        assert(page@ =~= order@.subrange(start as int, at as int));
    }
    page
}

/// The positions of the rows that are wanted, as they stand.
pub open spec fn picked(wanted: Seq<bool>) -> Seq<usize>
    decreases wanted.len(),
{
    if wanted.len() == 0 {
        Seq::empty()
    } else if wanted.last() {
        picked(wanted.drop_last()).push((wanted.len() - 1) as usize)
    } else {
        picked(wanted.drop_last())
    }
}

/// The keys of some rows.
pub open spec fn keys_at(keys: Seq<(u64, u64)>, rows: Seq<usize>) -> Seq<(u64, u64)> {
    Seq::new(rows.len(), |i: int| keys[rows[i] as int])
}

/// Rows, rearranged.
pub open spec fn arranged(rows: Seq<usize>, order: Seq<usize>) -> Seq<usize> {
    Seq::new(order.len(), |i: int| rows[order[i] as int])
}

/// The positions of the rows that are wanted, ordered by their keys.
pub open spec fn ordered_picks(wanted: Seq<bool>, keys: Seq<(u64, u64)>) -> Seq<usize> {
    let rows = picked(wanted);
    arranged(rows, order_of(keys_at(keys, rows)))
}

/// The positions of the rows that are wanted, as they stand.
pub fn pick(wanted: &Vec<bool>) -> (rows: Vec<usize>)
    ensures
        rows@ == picked(wanted@),
{
    let mut rows: Vec<usize> = Vec::new();
    let mut i: usize = 0;
    while i < wanted.len()
        invariant
            i <= wanted@.len(),
            rows@ == picked(wanted@.take(i as int)),
        decreases wanted@.len() - i,
    {
        assert(wanted@.take(i + 1).drop_last() =~= wanted@.take(i as int));
        if wanted[i] {
            rows.push(i);
        }
        i = i + 1;
    }
    assert(wanted@.take(i as int) =~= wanted@);
    rows
}

/// The positions of the rows that are wanted, ordered by their keys.
pub fn sort_picked(wanted: &Vec<bool>, keys: &Vec<(u64, u64)>) -> (order: Vec<usize>)
    requires
        wanted@.len() == keys@.len(),
    ensures
        order@ == ordered_picks(wanted@, keys@),
        order@.no_duplicates(),
        order@.len() <= wanted@.len(),
        forall|i: int|
            0 <= i < order@.len() ==> (#[trigger] order@[i]) < wanted@.len()
                && wanted@[order@[i] as int],
{
    let rows = pick(wanted);
    assert(wanted.len() == wanted@.len());
    proof {
        lemma_picked(wanted@);
    }
    let mut chosen: Vec<(u64, u64)> = Vec::new();
    let mut i: usize = 0;
    while i < rows.len()
        invariant
            i <= rows@.len(),
            forall|k: int| 0 <= k < rows@.len() ==> #[trigger] rows@[k] < keys@.len(),
            chosen@ == keys_at(keys@, rows@.take(i as int)),
        decreases rows@.len() - i,
    {
        chosen.push(keys[rows[i]]);
        i = i + 1;
        assert(chosen@ =~= keys_at(keys@, rows@.take(i as int)));
    }
    assert(rows@.take(i as int) =~= rows@);
    let order = sort_by_numbers(chosen);
    let mut listed: Vec<usize> = Vec::new();
    let mut k: usize = 0;
    while k < order.len()
        invariant
            k <= order@.len(),
            forall|j: int| 0 <= j < order@.len() ==> #[trigger] order@[j] < rows@.len(),
            listed@ == arranged(rows@, order@.take(k as int)),
        decreases order@.len() - k,
    {
        listed.push(rows[order[k]]);
        k = k + 1;
        assert(listed@ =~= arranged(rows@, order@.take(k as int)));
    }
    assert(order@.take(k as int) =~= order@);
    proof {
        law_exactly_the_wanted_rows_are_listed(wanted@, keys@, 0);
    }
    listed
}

/// How many rows of an order come before the row that is about to join it.
spec fn joins_at(keys: Seq<(u64, u64)>, order: Seq<usize>, upto: int) -> int
    decreases upto,
{
    if upto <= 0 {
        0
    } else if smaller(keys, order[upto - 1] as int, keys.len() - 1) {
        upto
    } else {
        joins_at(keys, order, upto - 1)
    }
}

proof fn lemma_joins_at(keys: Seq<(u64, u64)>, order: Seq<usize>, upto: int)
    requires
        keys.len() > 0,
        ordered_by(keys.drop_last(), order),
        0 <= upto <= order.len(),
    ensures
        0 <= joins_at(keys, order, upto) <= upto,
        forall|i: int|
            0 <= i < joins_at(keys, order, upto) ==> smaller(
                keys,
                #[trigger] order[i] as int,
                keys.len() - 1,
            ),
        forall|i: int|
            joins_at(keys, order, upto) <= i < upto ==> smaller(
                keys,
                keys.len() - 1,
                #[trigger] order[i] as int,
            ),
    decreases upto,
{
    if upto > 0 {
        lemma_joins_at(keys, order, upto - 1);
        if smaller(keys, order[upto - 1] as int, keys.len() - 1) {
            assert forall|i: int| 0 <= i < upto implies smaller(
                keys,
                #[trigger] order[i] as int,
                keys.len() - 1,
            ) by {
                if i < upto - 1 {
                    assert(smaller(
                        keys.drop_last(),
                        order[i] as int,
                        order[upto - 1] as int,
                    ));
                }
            }
        }
    }
}

/// Any rows can be put in order.
pub proof fn law_rows_can_be_ordered(keys: Seq<(u64, u64)>)
    requires
        keys.len() <= usize::MAX,
    ensures
        ordered_by(keys, order_of(keys)),
        order_of(keys).no_duplicates(),
        forall|row: usize| row < keys.len() ==> #[trigger] order_of(keys).contains(row),
    decreases keys.len(),
{
    if keys.len() == 0 {
        assert(ordered_by(keys, Seq::empty()));
    } else {
        let rest = keys.drop_last();
        law_rows_can_be_ordered(rest);
        let order = order_of(rest);
        lemma_joins_at(keys, order, order.len() as int);
        let at = joins_at(keys, order, order.len() as int);
        let last = (keys.len() - 1) as usize;
        let joined = order.insert(at, last);
        assert forall|i: int, j: int|
            #![trigger joined[i], joined[j]]
            0 <= i < j < joined.len() implies smaller(
            keys,
            joined[i] as int,
            joined[j] as int,
        ) by {
            let from = if i < at {
                i
            } else {
                i - 1
            };
            let to = if j < at {
                j
            } else {
                j - 1
            };
            if i != at {
                assert(joined[i] == order[from]);
            }
            if j != at {
                assert(joined[j] == order[to]);
            }
            if i != at && j != at {
                assert(smaller(rest, order[from] as int, order[to] as int));
            }
        }
        assert forall|i: int| 0 <= i < joined.len() implies #[trigger] joined[i] < keys.len() by {
            if i < at {
                assert(joined[i] == order[i]);
            } else if i > at {
                assert(joined[i] == order[i - 1]);
            }
        }
        assert(ordered_by(keys, joined));
    }
    let order = order_of(keys);
    assert forall|i: int, j: int|
        0 <= i < order.len() && 0 <= j < order.len() && i != j implies order[i] != order[j] by {
        if i < j {
            assert(smaller(keys, order[i] as int, order[j] as int));
        } else {
            assert(smaller(keys, order[j] as int, order[i] as int));
        }
    }
    assert forall|row: usize| row < keys.len() implies #[trigger] order.contains(row) by {
        lemma_every_position(order, row);
    }
}

/// What is picked is wanted, in place order, and all that is wanted is picked.
pub proof fn lemma_picked(wanted: Seq<bool>)
    requires
        wanted.len() <= usize::MAX,
    ensures
        picked(wanted).len() <= wanted.len(),
        forall|i: int|
            0 <= i < picked(wanted).len() ==> (#[trigger] picked(wanted)[i]) < wanted.len()
                && wanted[picked(wanted)[i] as int],
        forall|i: int, j: int|
            #![trigger picked(wanted)[i], picked(wanted)[j]]
            0 <= i < j < picked(wanted).len() ==> picked(wanted)[i] < picked(wanted)[j],
        forall|row: int|
            0 <= row < wanted.len() && #[trigger] wanted[row] ==> picked(wanted).contains(
                row as usize,
            ),
    decreases wanted.len(),
{
    if wanted.len() > 0 {
        let rest = wanted.drop_last();
        lemma_picked(rest);
        assert forall|row: int|
            0 <= row < wanted.len() && #[trigger] wanted[row] implies picked(wanted).contains(
            row as usize,
        ) by {
            if row < rest.len() {
                assert(rest[row]);
                let i = choose|i: int| 0 <= i < picked(rest).len() && picked(rest)[i] == row as usize;
                assert(picked(wanted)[i] == row as usize);
            } else {
                assert(picked(wanted).last() == row as usize);
            }
        }
    }
}

/// A list of wanted rows holds every one of them once, and nothing else.
pub proof fn law_exactly_the_wanted_rows_are_listed(
    wanted: Seq<bool>,
    keys: Seq<(u64, u64)>,
    row: usize,
)
    requires
        wanted.len() == keys.len(),
        wanted.len() <= usize::MAX,
    ensures
        ordered_picks(wanted, keys).no_duplicates(),
        ordered_picks(wanted, keys).len() <= wanted.len(),
        forall|i: int|
            0 <= i < ordered_picks(wanted, keys).len() ==> (#[trigger] ordered_picks(
                wanted,
                keys,
            )[i]) < wanted.len() && wanted[ordered_picks(wanted, keys)[i] as int],
        row < wanted.len() && wanted[row as int] ==> ordered_picks(wanted, keys).contains(row),
{
    let rows = picked(wanted);
    lemma_picked(wanted);
    let chosen = keys_at(keys, rows);
    law_rows_can_be_ordered(chosen);
    let order = order_of(chosen);
    let listed = ordered_picks(wanted, keys);
    assert forall|i: int, j: int|
        0 <= i < listed.len() && 0 <= j < listed.len() && i != j implies listed[i]
        != listed[j] by {
        assert(order[i] != order[j]);
        assert(listed[i] == rows[order[i] as int]);
        assert(listed[j] == rows[order[j] as int]);
    }
    if row < wanted.len() && wanted[row as int] {
        assert(rows.contains(row));
        let at = choose|at: int| 0 <= at < rows.len() && rows[at] == row;
        assert(order.contains(at as usize));
        let i = choose|i: int| 0 <= i < order.len() && order[i] == at as usize;
        assert(listed[i] == row);
    }
}

/// Wanted rows are listed by their first key from the least up, where those are equal by
/// their second, and where both are by where they stand.
pub proof fn law_listed_rows_ascend(wanted: Seq<bool>, keys: Seq<(u64, u64)>)
    requires
        wanted.len() == keys.len(),
        wanted.len() <= usize::MAX,
    ensures
        forall|i: int, j: int|
            #![trigger ordered_picks(wanted, keys)[i], ordered_picks(wanted, keys)[j]]
            0 <= i < j < ordered_picks(wanted, keys).len() ==> {
                let (a, b) = (ordered_picks(wanted, keys)[i], ordered_picks(wanted, keys)[j]);
                let (x, y) = (keys[a as int], keys[b as int]);
                x.0 < y.0 || x.0 == y.0 && (x.1 < y.1 || x.1 == y.1 && a < b)
            },
{
    let rows = picked(wanted);
    lemma_picked(wanted);
    let chosen = keys_at(keys, rows);
    law_rows_can_be_ordered(chosen);
    let order = order_of(chosen);
    let listed = ordered_picks(wanted, keys);
    assert forall|i: int, j: int|
        #![trigger listed[i], listed[j]]
        0 <= i < j < listed.len() implies {
        let (a, b) = (listed[i], listed[j]);
        let (x, y) = (keys[a as int], keys[b as int]);
        x.0 < y.0 || x.0 == y.0 && (x.1 < y.1 || x.1 == y.1 && a < b)
    } by {
        assert(listed[i] == rows[order[i] as int] && listed[j] == rows[order[j] as int]);
        assert(smaller(chosen, order[i] as int, order[j] as int));
        if order[i] < order[j] {
            assert(rows[order[i] as int] < rows[order[j] as int]);
        }
    }
}

/// Rows are ordered by their first key from the least up, where those are equal by their
/// second, and where both are by where they stand; every row is there, once.
pub proof fn law_ordered_rows_ascend(keys: Seq<(u64, u64)>)
    requires
        keys.len() <= usize::MAX,
    ensures
        order_of(keys).len() == keys.len(),
        order_of(keys).no_duplicates(),
        forall|row: usize| row < keys.len() ==> #[trigger] order_of(keys).contains(row),
        forall|i: int| 0 <= i < keys.len() ==> #[trigger] order_of(keys)[i] < keys.len(),
        forall|i: int, j: int|
            #![trigger order_of(keys)[i], order_of(keys)[j]]
            0 <= i < j < keys.len() ==> {
                let (a, b) = (order_of(keys)[i], order_of(keys)[j]);
                let (x, y) = (keys[a as int], keys[b as int]);
                x.0 < y.0 || x.0 == y.0 && (x.1 < y.1 || x.1 == y.1 && a < b)
            },
{
    law_rows_can_be_ordered(keys);
    let order = order_of(keys);
    assert forall|i: int, j: int|
        #![trigger order[i], order[j]]
        0 <= i < j < keys.len() implies {
        let (a, b) = (order[i], order[j]);
        let (x, y) = (keys[a as int], keys[b as int]);
        x.0 < y.0 || x.0 == y.0 && (x.1 < y.1 || x.1 == y.1 && a < b)
    } by {
        assert(smaller(keys, order[i] as int, order[j] as int));
    }
}

/// Turning a key round turns the order round.
pub proof fn law_a_turned_key_orders_the_other_way(a: u64, b: u64)
    ensures
        turned(a, false) < turned(b, false) <==> a < b,
        turned(a, true) < turned(b, true) <==> b < a,
        turned(a, true) == turned(b, true) <==> a == b,
        flipped(a) < flipped(b) <==> b < a,
{
}

/// Paging continues where the page before stopped: two pages in a row are one page
/// of both, and a page of everything is everything.
pub proof fn law_pages_join<T>(rows: Seq<T>, offset: int, first: int, second: int)
    requires
        offset >= 0,
        first >= 0,
        second >= 0,
    ensures
        page_of(rows, offset, first) + page_of(rows, offset + first, second) == page_of(
            rows,
            offset,
            first + second,
        ),
        page_of(rows, 0, rows.len() as int) == rows,
        page_of(rows, offset, first).len() <= first,
        forall|i: int|
            0 <= i < first && offset + i < rows.len() ==> i < page_of(rows, offset, first).len()
                && #[trigger] page_of(rows, offset, first)[i] == rows[offset + i],
{
    assert(page_of(rows, offset, first) + page_of(rows, offset + first, second) =~= page_of(
        rows,
        offset,
        first + second,
    ));
    assert(page_of(rows, 0, rows.len() as int) =~= rows);
}

/// Whether a relation says which of any two of `rows` rows comes first.
pub open spec fn decides(comes_first: spec_fn(int, int) -> bool, rows: nat) -> bool {
    &&& forall|a: int| 0 <= a < rows ==> !(#[trigger] comes_first(a, a))
    &&& forall|a: int, b: int|
        0 <= a < rows && 0 <= b < rows && a != b ==> (#[trigger] comes_first(a, b)) || comes_first(
            b,
            a,
        )
    &&& forall|a: int, b: int, c: int|
        0 <= a < rows && 0 <= b < rows && 0 <= c < rows && #[trigger] comes_first(a, b)
            && #[trigger] comes_first(b, c) ==> comes_first(a, c)
}

/// Whether `order` lists `rows` rows, each exactly once, in the order of a relation.
pub open spec fn follows(
    comes_first: spec_fn(int, int) -> bool,
    rows: nat,
    order: Seq<usize>,
) -> bool {
    &&& order.len() == rows
    &&& forall|i: int| 0 <= i < order.len() ==> #[trigger] order[i] < rows
    &&& forall|i: int, j: int|
        #![trigger order[i], order[j]]
        0 <= i < j < order.len() ==> comes_first(order[i] as int, order[j] as int)
}

/// Where one more row goes in an order, from `from` on.
spec fn goes_at(
    comes_first: spec_fn(int, int) -> bool,
    order: Seq<usize>,
    row: int,
    from: int,
) -> int
    decreases order.len() - from,
{
    if from >= order.len() {
        order.len() as int
    } else if comes_first(row, order[from] as int) {
        from
    } else {
        goes_at(comes_first, order, row, from + 1)
    }
}

proof fn lemma_goes_at(
    comes_first: spec_fn(int, int) -> bool,
    order: Seq<usize>,
    row: int,
    from: int,
)
    requires
        0 <= from <= order.len(),
        decides(comes_first, (row + 1) as nat),
        0 <= row,
        follows(comes_first, row as nat, order),
    ensures
        ({
            let at = goes_at(comes_first, order, row, from);
            &&& from <= at <= order.len()
            &&& forall|i: int|
                from <= i < at ==> comes_first((#[trigger] order[i]) as int, row)
            &&& forall|i: int|
                at <= i < order.len() ==> comes_first(row, (#[trigger] order[i]) as int)
        }),
    decreases order.len() - from,
{
    if from < order.len() {
        if comes_first(row, order[from] as int) {
            assert forall|i: int| from <= i < order.len() implies comes_first(
                row,
                (#[trigger] order[i]) as int,
            ) by {
                if i > from {
                    assert(comes_first(order[from] as int, order[i] as int));
                }
            }
        } else {
            assert(order[from] != row);
            assert(comes_first(order[from] as int, row) || comes_first(row, order[from] as int));
            lemma_goes_at(comes_first, order, row, from + 1);
        }
    }
}

/// Rows that a relation decides about can be put in order.
pub proof fn lemma_can_be_ordered(comes_first: spec_fn(int, int) -> bool, rows: nat) -> (order: Seq<
    usize,
>)
    requires
        rows <= usize::MAX,
        decides(comes_first, rows),
    ensures
        follows(comes_first, rows, order),
    decreases rows,
{
    if rows == 0 {
        Seq::empty()
    } else {
        let row = rows - 1;
        let rest = lemma_can_be_ordered(comes_first, row as nat);
        lemma_goes_at(comes_first, rest, row, 0);
        let at = goes_at(comes_first, rest, row, 0);
        let order = rest.insert(at, row as usize);
        assert forall|i: int| 0 <= i < order.len() implies #[trigger] order[i] < rows by {
            if i < at {
                assert(order[i] == rest[i]);
            } else if i > at {
                assert(order[i] == rest[i - 1]);
            }
        }
        assert forall|i: int, j: int|
            #![trigger order[i], order[j]]
            0 <= i < j < order.len() implies comes_first(order[i] as int, order[j] as int) by {
            let from = if i < at {
                i
            } else {
                i - 1
            };
            let to = if j < at {
                j
            } else {
                j - 1
            };
            if i != at {
                assert(order[i] == rest[from]);
            }
            if j != at {
                assert(order[j] == rest[to]);
            }
            if i != at && j != at {
                assert(comes_first(rest[from] as int, rest[to] as int));
            }
        }
        order
    }
}

/// Rows that a relation decides about have one order.
pub proof fn lemma_one_order(
    comes_first: spec_fn(int, int) -> bool,
    rows: nat,
    a: Seq<usize>,
    b: Seq<usize>,
    upto: nat,
)
    requires
        decides(comes_first, rows),
        follows(comes_first, rows, a),
        follows(comes_first, rows, b),
        upto <= rows,
    ensures
        forall|k: int| 0 <= k < upto ==> #[trigger] a[k] == b[k],
        upto == rows ==> a == b,
    decreases upto,
{
    if upto > 0 {
        let k = upto - 1;
        lemma_one_order(comes_first, rows, a, b, k as nat);
        lemma_listed(comes_first, rows, b, a[k]);
        lemma_listed(comes_first, rows, a, b[k]);
        let m = choose|m: int| 0 <= m < b.len() && b[m] == a[k];
        let n = choose|n: int| 0 <= n < a.len() && a[n] == b[k];
        if m < k {
            assert(a[m] == b[m]);
            assert(comes_first(a[m] as int, a[k] as int));
        }
        if n < k {
            assert(a[n] == b[n]);
            assert(comes_first(b[n] as int, b[k] as int));
        }
        if m > k && n > k {
            assert(comes_first(b[k] as int, b[m] as int));
            assert(comes_first(a[k] as int, a[n] as int));
        }
    }
    if upto == rows {
        assert(a =~= b);
    }
}

proof fn lemma_listed(
    comes_first: spec_fn(int, int) -> bool,
    rows: nat,
    order: Seq<usize>,
    row: usize,
)
    requires
        decides(comes_first, rows),
        follows(comes_first, rows, order),
        row < rows,
    ensures
        order.contains(row),
{
    assert forall|i: int, j: int|
        0 <= i < order.len() && 0 <= j < order.len() && i != j implies order[i] != order[j] by {
        if i < j {
            assert(comes_first(order[i] as int, order[j] as int));
        } else {
            assert(comes_first(order[j] as int, order[i] as int));
        }
    }
    lemma_every_position(order, row);
}

} // verus!

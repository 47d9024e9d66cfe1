//! Stable orderings: positions arranged by a key, positions of equal keys
//! staying in the order in which they stand.

use vstd::prelude::*;

verus! {

/// Whether `a` comes before `b` in the dictionary order of their characters,
/// from position `i` on and given that they agree before it.
pub open spec fn text_less_from(a: Seq<char>, b: Seq<char>, i: int) -> bool
    decreases a.len() - i,
{
    if i >= b.len() {
        false
    } else if i >= a.len() {
        true
    } else if a[i] != b[i] {
        a[i] < b[i]
    } else {
        text_less_from(a, b, i + 1)
    }
}

/// Whether `a` comes before `b` in the dictionary order of their characters:
/// at the first position where they differ `a` has the lesser character, or
/// `a` ends there and `b` does not.
pub open spec fn text_less(a: Seq<char>, b: Seq<char>) -> bool {
    text_less_from(a, b, 0)
}

/// Two texts that agree before `i` and of which neither comes before the
/// other from `i` on are equal.
proof fn lemma_text_total_from(a: Seq<char>, b: Seq<char>, i: int)
    requires
        0 <= i,
        i <= a.len(),
        i <= b.len(),
        a.take(i) == b.take(i),
        !text_less_from(a, b, i),
        !text_less_from(b, a, i),
    ensures
        a == b,
    decreases a.len() - i,
{
    if i >= b.len() || i >= a.len() {
        assert(a.take(i) =~= a);
        assert(b.take(i) =~= b);
    } else {
        assert(a[i] == b[i]);
        assert(a.take(i + 1) =~= a.take(i).push(a[i]));
        assert(b.take(i + 1) =~= b.take(i).push(b[i]));
        lemma_text_total_from(a, b, i + 1);
    }
}

/// Of two different texts one comes before the other.
pub proof fn lemma_text_total(a: Seq<char>, b: Seq<char>)
    ensures
        a == b || text_less(a, b) || text_less(b, a),
{
    if !text_less(a, b) && !text_less(b, a) {
        assert(a.take(0) =~= b.take(0));
        lemma_text_total_from(a, b, 0);
    }
}

proof fn lemma_text_irreflexive_from(a: Seq<char>, i: int)
    requires
        0 <= i,
    ensures
        !text_less_from(a, a, i),
    decreases a.len() - i,
{
    if i < a.len() {
        lemma_text_irreflexive_from(a, i + 1);
    }
}

/// No text comes before itself.
pub proof fn lemma_text_irreflexive(a: Seq<char>)
    ensures
        !text_less(a, a),
{
    lemma_text_irreflexive_from(a, 0);
}

proof fn lemma_text_transitive_from(a: Seq<char>, b: Seq<char>, c: Seq<char>, i: int)
    requires
        0 <= i,
        text_less_from(a, b, i),
        text_less_from(b, c, i),
    ensures
        text_less_from(a, c, i),
    decreases a.len() - i,
{
    if i < a.len() && i < b.len() && i < c.len() && a[i] == b[i] && b[i] == c[i] {
        lemma_text_transitive_from(a, b, c, i + 1);
    }
}

/// What comes before a text comes before all that the text comes before.
pub proof fn lemma_text_transitive(a: Seq<char>, b: Seq<char>, c: Seq<char>)
    requires
        text_less(a, b),
        text_less(b, c),
    ensures
        text_less(a, c),
{
    lemma_text_transitive_from(a, b, c, 0);
}

/// Tells whether `a` comes before `b` in the dictionary order of their
/// characters.
pub fn text_before(a: &Vec<char>, b: &Vec<char>) -> (r: bool)
    ensures
        r == text_less(a@, b@),
{
    let mut i: usize = 0;
    while i < a.len() && i < b.len()
        invariant
            i <= a@.len(),
            i <= b@.len(),
            text_less(a@, b@) == text_less_from(a@, b@, i as int),
        decreases a@.len() - i,
    {
        if a[i] != b[i] {
            return a[i] < b[i];
        }
        i += 1;
    }
    i < b.len()
}

/// Whether position `a` belongs before position `b` when the greater number
/// goes first and equal numbers stay as they stand.
pub open spec fn number_first(keys: Seq<nat>, a: int, b: int) -> bool {
    keys[a] > keys[b] || (keys[a] == keys[b] && a < b)
}

/// Whether `order` lists the positions of `keys` by descending number, equal
/// numbers in the order in which they stand.
pub open spec fn is_descending_order(keys: Seq<nat>, order: Seq<usize>) -> bool {
    &&& order.len() == keys.len()
    &&& forall|i: int| 0 <= i < order.len() ==> #[trigger] order[i] < keys.len()
    &&& forall|i: int, j: int|
        0 <= i < j < order.len() ==> number_first(keys, order[i] as int, order[j] as int)
}

/// Whether position `a` belongs before position `b` when the lesser text
/// goes first and equal texts stay as they stand.
pub open spec fn text_first(keys: Seq<Seq<char>>, a: int, b: int) -> bool {
    text_less(keys[a], keys[b]) || (keys[a] == keys[b] && a < b)
}

/// Whether `order` lists the positions of `keys` by ascending text, equal
/// texts in the order in which they stand.
pub open spec fn is_ascending_order(keys: Seq<Seq<char>>, order: Seq<usize>) -> bool {
    &&& order.len() == keys.len()
    &&& forall|i: int| 0 <= i < order.len() ==> #[trigger] order[i] < keys.len()
    &&& forall|i: int, j: int|
        0 <= i < j < order.len() ==> text_first(keys, order[i] as int, order[j] as int)
}

/// The positions of `keys` by descending number, equal numbers in the order
/// in which they stand.
pub fn descending_order(keys: &Vec<usize>) -> (order: Vec<usize>)
    ensures
        is_descending_order(naturals(keys@), order@),
        order@ == descending(naturals(keys@)),
{
    let n = keys.len();
    let ghost all = naturals(keys@);
    let mut order: Vec<usize> = Vec::new();
    let mut next: usize = 0;
    while next < n
        invariant
            next <= n == keys@.len(),
            all == naturals(keys@),
            order@.len() == next,
            forall|i: int| 0 <= i < order@.len() ==> #[trigger] order@[i] < next,
            forall|i: int, j: int|
                0 <= i < j < order@.len() ==> number_first(all, order@[i] as int, order@[j] as int),
        decreases n - next,
    {
        let key = keys[next];
        let mut at: usize = 0;
        while at < order.len() && keys[order[at]] >= key
            invariant
                at <= order@.len(),
                order@.len() == next < n == keys@.len(),
                key == keys@[next as int],
                forall|i: int| 0 <= i < order@.len() ==> #[trigger] order@[i] < next,
                forall|i: int| 0 <= i < at ==> keys@[#[trigger] order@[i] as int] >= key,
            decreases order@.len() - at,
        {
            at += 1;
        }
        let ghost before = order@;
        order.insert(at, next);
        proof {
            assert forall|i: int, j: int| 0 <= i < j < order@.len() implies number_first(
                all,
                order@[i] as int,
                order@[j] as int,
            ) by {
                if j < at {
                    assert(order@[i] == before[i] && order@[j] == before[j]);
                } else if j == at {
                    assert(order@[i] == before[i]);
                    assert(before[i] < next);
                } else if i < at {
                    assert(order@[i] == before[i] && order@[j] == before[j - 1]);
                } else if i == at {
                    assert(order@[j] == before[j - 1]);
                    if at < j - 1 {
                        assert(number_first(all, before[at as int] as int, before[j - 1] as int));
                    }
                } else {
                    assert(order@[i] == before[i - 1] && order@[j] == before[j - 1]);
                }
            }
            assert forall|i: int| 0 <= i < order@.len() implies #[trigger] order@[i] < next
                + 1 by {
                if i < at {
                    assert(order@[i] == before[i]);
                } else if i > at {
                    assert(order@[i] == before[i - 1]);
                }
            }
        }
        next += 1;
    }
    proof {
        lemma_descending_order_unique(all, order@, descending(all));
    }
    order
}

/// The positions of `keys` by ascending text, equal texts in the order in
/// which they stand.
pub fn ascending_order(keys: &Vec<Vec<char>>) -> (order: Vec<usize>)
    ensures
        is_ascending_order(texts(keys@), order@),
        order@ == ascending(texts(keys@)),
{
    let n = keys.len();
    let ghost all = texts(keys@);
    let mut order: Vec<usize> = Vec::new();
    let mut next: usize = 0;
    while next < n
        invariant
            next <= n == keys@.len(),
            all == texts(keys@),
            order@.len() == next,
            forall|i: int| 0 <= i < order@.len() ==> #[trigger] order@[i] < next,
            forall|i: int, j: int|
                0 <= i < j < order@.len() ==> text_first(all, order@[i] as int, order@[j] as int),
        decreases n - next,
    {
        let mut at: usize = 0;
        while at < order.len() && !text_before(&keys[next], &keys[order[at]])
            invariant
                at <= order@.len(),
                order@.len() == next < n == keys@.len(),
                all == texts(keys@),
                forall|i: int| 0 <= i < order@.len() ==> #[trigger] order@[i] < next,
                forall|i: int|
                    0 <= i < at ==> !text_less(all[next as int], all[#[trigger] order@[i] as int]),
            decreases order@.len() - at,
        {
            at += 1;
        }
        let ghost before = order@;
        order.insert(at, next);
        proof {
            assert forall|i: int, j: int| 0 <= i < j < order@.len() implies text_first(
                all,
                order@[i] as int,
                order@[j] as int,
            ) by {
                if j < at {
                    assert(order@[i] == before[i] && order@[j] == before[j]);
                } else if j == at {
                    assert(order@[i] == before[i]);
                    assert(before[i] < next);
                    lemma_text_total(all[before[i] as int], all[next as int]);
                } else if i < at {
                    assert(order@[i] == before[i] && order@[j] == before[j - 1]);
                } else if i == at {
                    assert(order@[j] == before[j - 1]);
                    assert(text_less(all[next as int], all[before[at as int] as int]));
                    if at < j - 1 {
                        assert(text_first(all, before[at as int] as int, before[j - 1] as int));
                        if all[before[at as int] as int] != all[before[j - 1] as int] {
                            lemma_text_transitive(
                                all[next as int],
                                all[before[at as int] as int],
                                all[before[j - 1] as int],
                            );
                        }
                    }
                } else {
                    assert(order@[i] == before[i - 1] && order@[j] == before[j - 1]);
                }
            }
            assert forall|i: int| 0 <= i < order@.len() implies #[trigger] order@[i] < next
                + 1 by {
                if i < at {
                    assert(order@[i] == before[i]);
                } else if i > at {
                    assert(order@[i] == before[i - 1]);
                }
            }
        }
        next += 1;
    }
    proof {
        lemma_ascending_order_unique(all, order@, ascending(all));
    }
    order
}

/// The numbers of `keys`, in order.
pub open spec fn naturals(keys: Seq<usize>) -> Seq<nat> {
    Seq::new(keys.len(), |i: int| keys[i] as nat)
}

/// The texts that the vectors of `keys` hold, in order.
pub open spec fn texts(keys: Seq<Vec<char>>) -> Seq<Seq<char>> {
    Seq::new(keys.len(), |i: int| keys[i]@)
}

/// A sequence that holds `n` different positions below `n` holds each of them.
proof fn lemma_holds_every_position(order: Seq<usize>, x: usize)
    requires
        order.no_duplicates(),
        forall|i: int| 0 <= i < order.len() ==> #[trigger] order[i] < order.len(),
        x < order.len(),
    ensures
        order.contains(x),
{
    let n = order.len() as int;
    let numbers = Seq::new(order.len(), |i: int| order[i] as int);
    let held = numbers.to_set();
    let all = vstd::set_lib::set_int_range(0, n);
    vstd::set_lib::lemma_int_range(0, n);
    assert(numbers.no_duplicates());
    numbers.unique_seq_to_set();
    assert(held.subset_of(all)) by {
        assert forall|v: int| held.contains(v) implies all.contains(v) by {
            let i = choose|i: int| 0 <= i < numbers.len() && numbers[i] == v;
            assert(order[i] < order.len());
        }
    }
    vstd::set_lib::lemma_len_subset(held, all);
    vstd::set_lib::lemma_subset_equality(held, all);
    assert(all.contains(x as int));
    assert(held.contains(x as int));
    let at = choose|i: int| 0 <= i < numbers.len() && numbers[i] == x as int;
    assert(order[at] == x);
}

/// Two sequences that hold the positions below their length, each arranged
/// by the same one-way relation, are equal.
proof fn lemma_one_arrangement(first: spec_fn(int, int) -> bool, a: Seq<usize>, b: Seq<usize>)
    requires
        a.len() == b.len(),
        forall|i: int| 0 <= i < a.len() ==> #[trigger] a[i] < a.len(),
        forall|i: int| 0 <= i < b.len() ==> #[trigger] b[i] < b.len(),
        forall|i: int, j: int| 0 <= i < j < a.len() ==> first(a[i] as int, a[j] as int),
        forall|i: int, j: int| 0 <= i < j < b.len() ==> first(b[i] as int, b[j] as int),
        forall|x: int, y: int| #[trigger] first(x, y) ==> !first(y, x),
    ensures
        a == b,
{
    lemma_arranged_once_each(first, a);
    lemma_arranged_once_each(first, b);
    lemma_same_up_to(first, a, b, a.len() as int);
    assert(a =~= b);
}

/// The two sequences of `lemma_one_arrangement` agree on their first `k`
/// places.
proof fn lemma_same_up_to(first: spec_fn(int, int) -> bool, a: Seq<usize>, b: Seq<usize>, k: int)
    requires
        a.len() == b.len(),
        0 <= k <= a.len(),
        a.no_duplicates(),
        b.no_duplicates(),
        forall|i: int| 0 <= i < a.len() ==> #[trigger] a[i] < a.len(),
        forall|i: int| 0 <= i < b.len() ==> #[trigger] b[i] < b.len(),
        forall|i: int, j: int| 0 <= i < j < a.len() ==> first(a[i] as int, a[j] as int),
        forall|i: int, j: int| 0 <= i < j < b.len() ==> first(b[i] as int, b[j] as int),
        forall|x: int, y: int| #[trigger] first(x, y) ==> !first(y, x),
    ensures
        forall|i: int| 0 <= i < k ==> a[i] == b[i],
    decreases k,
{
    if k > 0 {
        lemma_same_up_to(first, a, b, k - 1);
        let at = k - 1;
        let x = a[at];
        let y = b[at];
        if x != y {
            lemma_holds_every_position(b, x);
            lemma_holds_every_position(a, y);
            let in_b = choose|i: int| 0 <= i < b.len() && b[i] == x;
            let in_a = choose|i: int| 0 <= i < a.len() && a[i] == y;
            if in_b < at {
                assert(a[in_b] == b[in_b]);
            }
            if in_a < at {
                assert(a[in_a] == b[in_a]);
            }
            assert(first(b[at] as int, b[in_b] as int));
            assert(first(a[at] as int, a[in_a] as int));
        }
    }
}

/// Only one sequence lists the positions of `keys` by descending number with
/// equal numbers in the order in which they stand.
pub proof fn lemma_descending_order_unique(keys: Seq<nat>, a: Seq<usize>, b: Seq<usize>)
    requires
        is_descending_order(keys, a),
        is_descending_order(keys, b),
    ensures
        a == b,
{
    lemma_one_arrangement(|x: int, y: int| number_first(keys, x, y), a, b);
}

/// Only one sequence lists the positions of `keys` by ascending text with
/// equal texts in the order in which they stand.
pub proof fn lemma_ascending_order_unique(keys: Seq<Seq<char>>, a: Seq<usize>, b: Seq<usize>)
    requires
        is_ascending_order(keys, a),
        is_ascending_order(keys, b),
    ensures
        a == b,
{
    let first = |x: int, y: int| text_first(keys, x, y);
    assert forall|x: int, y: int| #[trigger] first(x, y) implies !first(y, x) by {
        if first(x, y) && first(y, x) {
            lemma_text_irreflexive(keys[x]);
            if text_less(keys[x], keys[y]) && text_less(keys[y], keys[x]) {
                lemma_text_transitive(keys[x], keys[y], keys[x]);
            }
        }
    }
    lemma_one_arrangement(first, a, b);
}

/// The first place at or after `i` whose position does not go before `x`.
spec fn place_of(first: spec_fn(int, int) -> bool, order: Seq<usize>, x: int, i: int) -> int
    decreases order.len() - i,
{
    if 0 <= i < order.len() && first(order[i] as int, x) {
        place_of(first, order, x, i + 1)
    } else {
        i
    }
}

/// The positions below `n`, arranged by `first`: each position is put, in
/// turn, behind those that go before it.
spec fn arrangement(first: spec_fn(int, int) -> bool, n: nat) -> Seq<usize>
    decreases n,
{
    if n == 0 {
        Seq::empty()
    } else {
        let before = arrangement(first, (n - 1) as nat);
        let at = place_of(first, before, n - 1, 0);
        before.take(at).push((n - 1) as usize) + before.skip(at)
    }
}

proof fn lemma_place_of(first: spec_fn(int, int) -> bool, order: Seq<usize>, x: int, i: int)
    requires
        0 <= i <= order.len(),
    ensures
        i <= place_of(first, order, x, i) <= order.len(),
        forall|j: int| i <= j < place_of(first, order, x, i) ==> first(#[trigger] order[j] as int, x),
        place_of(first, order, x, i) < order.len() ==> !first(
            order[place_of(first, order, x, i)] as int,
            x,
        ),
    decreases order.len() - i,
{
    if i < order.len() && first(order[i] as int, x) {
        lemma_place_of(first, order, x, i + 1);
    }
}

/// Whether `first` orders the positions below `n`: it goes one way only, it
/// carries over, and of two different positions one goes before the other.
spec fn orders(first: spec_fn(int, int) -> bool, n: nat) -> bool {
    &&& forall|x: int, y: int| #[trigger] first(x, y) ==> !first(y, x)
    &&& forall|x: int, y: int, z: int| #[trigger]
        first(x, y) && #[trigger] first(y, z) ==> first(x, z)
    &&& forall|x: int, y: int|
        0 <= x < n && 0 <= y < n && x != y ==> #[trigger] first(x, y) || first(y, x)
}

/// The arrangement lists the positions below `n`, each before those that it
/// goes before.
proof fn lemma_arrangement(first: spec_fn(int, int) -> bool, n: nat, upto: nat)
    requires
        orders(first, n),
        upto <= n <= usize::MAX,
    ensures
        arrangement(first, upto).len() == upto,
        forall|i: int| 0 <= i < upto ==> #[trigger] arrangement(first, upto)[i] < upto,
        forall|i: int, j: int|
            0 <= i < j < upto ==> first(
                arrangement(first, upto)[i] as int,
                arrangement(first, upto)[j] as int,
            ),
    decreases upto,
{
    if upto > 0 {
        let x = upto - 1;
        let before = arrangement(first, x as nat);
        lemma_arrangement(first, n, x as nat);
        let at = place_of(first, before, x, 0);
        lemma_place_of(first, before, x, 0);
        let now = arrangement(first, upto);
        assert(now == before.take(at).push(x as usize) + before.skip(at));
        assert(now.len() == upto);
        assert forall|i: int| 0 <= i < upto implies #[trigger] now[i] < upto by {
            if i < at {
                assert(now[i] == before[i]);
            } else if i > at {
                assert(now[i] == before[i - 1]);
            }
        }
        assert forall|i: int, j: int| 0 <= i < j < upto implies first(
            now[i] as int,
            now[j] as int,
        ) by {
            if j < at {
                assert(now[i] == before[i] && now[j] == before[j]);
            } else if j == at {
                assert(now[i] == before[i] && now[j] == x);
            } else if i < at {
                assert(now[i] == before[i] && now[j] == before[j - 1]);
            } else if i == at {
                assert(now[i] == x && now[j] == before[j - 1]);
                let y = before[at] as int;
                assert(y < x);
                assert(!first(y, x));
                assert(first(x, y) || first(y, x));
                if at < j - 1 {
                    assert(first(y, before[j - 1] as int));
                }
            } else {
                assert(now[i] == before[i - 1] && now[j] == before[j - 1]);
            }
        }
    }
}

/// Arranged positions are all different, and every position is among them.
proof fn lemma_arranged_once_each(first: spec_fn(int, int) -> bool, order: Seq<usize>)
    requires
        forall|i: int| 0 <= i < order.len() ==> #[trigger] order[i] < order.len(),
        forall|i: int, j: int| 0 <= i < j < order.len() ==> first(order[i] as int, order[j] as int),
        forall|x: int, y: int| #[trigger] first(x, y) ==> !first(y, x),
    ensures
        order.no_duplicates(),
        forall|x: usize| x < order.len() ==> order.contains(x),
{
    assert forall|i: int, j: int|
        0 <= i < order.len() && 0 <= j < order.len() && i != j implies order[i] != order[j] by {
        if i < j {
            assert(first(order[i] as int, order[j] as int));
        } else {
            assert(first(order[j] as int, order[i] as int));
        }
    }
    assert forall|x: usize| x < order.len() implies order.contains(x) by {
        lemma_holds_every_position(order, x);
    }
}

/// `number_first` orders the positions of `keys`.
proof fn lemma_number_first_orders(keys: Seq<nat>)
    ensures
        orders(|x: int, y: int| number_first(keys, x, y), keys.len()),
{
}

/// `text_first` orders the positions of `keys`.
proof fn lemma_text_first_orders(keys: Seq<Seq<char>>)
    ensures
        orders(|x: int, y: int| text_first(keys, x, y), keys.len()),
{
    let first = |x: int, y: int| text_first(keys, x, y);
    assert forall|x: int, y: int| #[trigger] first(x, y) implies !first(y, x) by {
        lemma_text_irreflexive(keys[x]);
        if text_less(keys[x], keys[y]) && text_less(keys[y], keys[x]) {
            lemma_text_transitive(keys[x], keys[y], keys[x]);
        }
    }
    assert forall|x: int, y: int, z: int| #[trigger] first(x, y) && #[trigger] first(y, z) implies first(
        x,
        z,
    ) by {
        if text_less(keys[x], keys[y]) && text_less(keys[y], keys[z]) {
            lemma_text_transitive(keys[x], keys[y], keys[z]);
        }
    }
    assert forall|x: int, y: int| 0 <= x < keys.len() && 0 <= y < keys.len() && x != y implies #[trigger] first(
        x,
        y,
    ) || first(y, x) by {
        lemma_text_total(keys[x], keys[y]);
    }
}

/// `descending` lists the positions of `keys` by descending number, equal
/// numbers in the order in which they stand: every position once, and no
/// number before a greater one.
pub proof fn lemma_descending(keys: Seq<nat>)
    requires
        keys.len() <= usize::MAX,
    ensures
        is_descending_order(keys, descending(keys)),
        descending(keys).no_duplicates(),
        forall|x: usize| x < keys.len() ==> descending(keys).contains(x),
        forall|i: int, j: int|
            0 <= i < j < keys.len() ==> keys[descending(keys)[i] as int] >= keys[descending(
                keys,
            )[j] as int],
{
    let first = |x: int, y: int| number_first(keys, x, y);
    lemma_number_first_orders(keys);
    lemma_arrangement(first, keys.len(), keys.len());
    assert(is_descending_order(keys, arrangement(first, keys.len())));
    let order = descending(keys);
    lemma_arranged_once_each(first, order);
    assert forall|i: int, j: int| 0 <= i < j < keys.len() implies keys[order[i] as int]
        >= keys[order[j] as int] by {
        assert(number_first(keys, order[i] as int, order[j] as int));
    }
}

/// `ascending` lists the positions of `keys` by ascending text, equal texts
/// in the order in which they stand: every position once, and no text before
/// a lesser one.
pub proof fn lemma_ascending(keys: Seq<Seq<char>>)
    requires
        keys.len() <= usize::MAX,
    ensures
        is_ascending_order(keys, ascending(keys)),
        ascending(keys).no_duplicates(),
        forall|x: usize| x < keys.len() ==> ascending(keys).contains(x),
        forall|i: int, j: int|
            0 <= i < j < keys.len() ==> !text_less(
                keys[ascending(keys)[j] as int],
                keys[ascending(keys)[i] as int],
            ),
{
    let first = |x: int, y: int| text_first(keys, x, y);
    lemma_text_first_orders(keys);
    lemma_arrangement(first, keys.len(), keys.len());
    assert(is_ascending_order(keys, arrangement(first, keys.len())));
    let order = ascending(keys);
    lemma_arranged_once_each(first, order);
    assert forall|i: int, j: int| 0 <= i < j < keys.len() implies !text_less(
        keys[order[j] as int],
        keys[order[i] as int],
    ) by {
        assert(first(order[i] as int, order[j] as int));
        assert(!first(order[j] as int, order[i] as int));
        lemma_text_irreflexive(keys[order[i] as int]);
    }
}

/// The positions of `keys` by descending number, equal numbers in the order
/// in which they stand.
pub open spec fn descending(keys: Seq<nat>) -> Seq<usize> {
    choose|order: Seq<usize>| is_descending_order(keys, order)
}

/// The positions of `keys` by ascending text, equal texts in the order in
/// which they stand.
pub open spec fn ascending(keys: Seq<Seq<char>>) -> Seq<usize> {
    choose|order: Seq<usize>| is_ascending_order(keys, order)
}

} // verus!

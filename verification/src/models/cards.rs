//! Small ordered collections of cards: the operations that holdings, decks
//! and the auction pool are built from, each with its mathematical meaning.

use vstd::prelude::*;

verus! {

/// Whether `s` never decreases from one position to the next.
pub open spec fn ascending(s: Seq<u8>) -> bool {
    forall|i: int, j: int| 0 <= i < j < s.len() ==> s[i] <= s[j]
}

/// Whether `s` never increases from one position to the next.
pub open spec fn descending(s: Seq<u8>) -> bool {
    forall|i: int, j: int| 0 <= i < j < s.len() ==> s[i] >= s[j]
}

/// The first position at or after `from` whose card is at least `v`, or the
/// length of `s` if there is none.
pub open spec fn first_at_least(s: Seq<u8>, v: u8, from: int) -> int
    decreases s.len() - from,
{
    if from < 0 || from >= s.len() {
        s.len() as int
    } else if s[from] >= v {
        from
    } else {
        first_at_least(s, v, from + 1)
    }
}

/// `s` with `v` placed in front of the first card that is at least `v`.
pub open spec fn insert_ascending(s: Seq<u8>, v: u8) -> Seq<u8> {
    s.insert(first_at_least(s, v, 0), v)
}

/// The first position at or after `from` whose card is below `v`, or the
/// length of `s` if there is none.
pub open spec fn first_below(s: Seq<u8>, v: u8, from: int) -> int
    decreases s.len() - from,
{
    if from < 0 || from >= s.len() {
        s.len() as int
    } else if s[from] < v {
        from
    } else {
        first_below(s, v, from + 1)
    }
}

/// `s` with `v` placed in front of the first card that is below `v`.
pub open spec fn insert_descending(s: Seq<u8>, v: u8) -> Seq<u8> {
    s.insert(first_below(s, v, 0), v)
}

/// The cards of `s` from the highest to the lowest.
pub open spec fn sort_descending(s: Seq<u8>) -> Seq<u8>
    decreases s.len(),
{
    if s.len() == 0 {
        s
    } else {
        insert_descending(sort_descending(s.drop_last()), s.last())
    }
}

/// `s` without every card whose value occurs in `values`, the others in
/// their order.
pub open spec fn without(s: Seq<u8>, values: Seq<u8>) -> Seq<u8>
    decreases s.len(),
{
    if s.len() == 0 {
        s
    } else if values.contains(s.last()) {
        without(s.drop_last(), values)
    } else {
        without(s.drop_last(), values).push(s.last())
    }
}

/// The first position at or after `from` with a card of value `v`, or the
/// length of `s` if there is none.
pub open spec fn position_of(s: Seq<u8>, v: u8, from: int) -> int
    decreases s.len() - from,
{
    if from >= s.len() {
        s.len() as int
    } else if s[from] == v {
        from
    } else {
        position_of(s, v, from + 1)
    }
}

/// `s` without the first card of value `v`; `s` itself where it holds no
/// such card.
pub open spec fn without_one(s: Seq<u8>, v: u8) -> Seq<u8> {
    if 0 <= position_of(s, v, 0) < s.len() {
        s.remove(position_of(s, v, 0))
    } else {
        s
    }
}

/// `s` without one card for each card of `values`: the values are taken
/// out in their order, each time the first card of that value.
pub open spec fn without_each(s: Seq<u8>, values: Seq<u8>) -> Seq<u8>
    decreases values.len(),
{
    if values.len() == 0 {
        s
    } else {
        without_one(without_each(s, values.drop_last()), values.last())
    }
}

/// The highest card of `s`, or 0 for no cards.
pub open spec fn highest(s: Seq<u8>) -> u8
    decreases s.len(),
{
    if s.len() == 0 {
        0
    } else if s.last() >= highest(s.drop_last()) {
        s.last()
    } else {
        highest(s.drop_last())
    }
}

/// The face values of `s` added up.
pub open spec fn total(s: Seq<u8>) -> nat
    decreases s.len(),
{
    if s.len() == 0 {
        0
    } else {
        total(s.drop_last()) + s.last() as nat
    }
}

/// The first position with a card of at least `v`: every card before it is
/// smaller.
pub proof fn lemma_first_at_least(s: Seq<u8>, v: u8, from: int)
    requires
        0 <= from <= s.len(),
    ensures
        from <= first_at_least(s, v, from) <= s.len(),
        forall|j: int| from <= j < first_at_least(s, v, from) ==> s[j] < v,
        first_at_least(s, v, from) < s.len() ==> s[first_at_least(s, v, from)] >= v,
    decreases s.len() - from,
{
    if from < s.len() && s[from] < v {
        lemma_first_at_least(s, v, from + 1);
    }
}

/// The first position with a card below `v`: every card before it is at least
/// `v`.
pub proof fn lemma_first_below(s: Seq<u8>, v: u8, from: int)
    requires
        0 <= from <= s.len(),
    ensures
        from <= first_below(s, v, from) <= s.len(),
        forall|j: int| from <= j < first_below(s, v, from) ==> s[j] >= v,
        first_below(s, v, from) < s.len() ==> s[first_below(s, v, from)] < v,
    decreases s.len() - from,
{
    if from < s.len() && s[from] >= v {
        lemma_first_below(s, v, from + 1);
    }
}

/// Placing a card into an ascending hand keeps it ascending, adds one card,
/// and changes nothing else of what the hand holds.
pub proof fn lemma_insert_ascending(s: Seq<u8>, v: u8)
    requires
        ascending(s),
    ensures
        ascending(insert_ascending(s, v)),
        insert_ascending(s, v).len() == s.len() + 1,
        insert_ascending(s, v).to_multiset() == s.to_multiset().insert(v),
{
    lemma_first_at_least(s, v, 0);
    let p = first_at_least(s, v, 0);
    let r = insert_ascending(s, v);
    assert forall|i: int, j: int| 0 <= i < j < r.len() implies r[i] <= r[j] by {
        if j < p {
            assert(r[i] == s[i] && r[j] == s[j]);
        } else if j == p {
            assert(r[i] == s[i]);
        } else if i < p {
            assert(r[i] == s[i] && r[j] == s[j - 1]);
        } else if i == p {
            assert(r[j] == s[j - 1]);
            assert(s[p] <= s[j - 1] || p == j - 1);
        } else {
            assert(r[i] == s[i - 1] && r[j] == s[j - 1]);
        }
    }
    vstd::seq_lib::to_multiset_insert(s, p, v);
}

/// Placing a card into a descending pool keeps it descending, adds one card,
/// and changes nothing else of what the pool holds.
pub proof fn lemma_insert_descending(s: Seq<u8>, v: u8)
    requires
        descending(s),
    ensures
        descending(insert_descending(s, v)),
        insert_descending(s, v).len() == s.len() + 1,
        insert_descending(s, v).to_multiset() == s.to_multiset().insert(v),
{
    lemma_first_below(s, v, 0);
    let p = first_below(s, v, 0);
    let r = insert_descending(s, v);
    assert forall|i: int, j: int| 0 <= i < j < r.len() implies r[i] >= r[j] by {
        if j < p {
            assert(r[i] == s[i] && r[j] == s[j]);
        } else if j == p {
            assert(r[i] == s[i]);
        } else if i < p {
            assert(r[i] == s[i] && r[j] == s[j - 1]);
        } else if i == p {
            assert(r[j] == s[j - 1]);
            assert(s[p] >= s[j - 1] || p == j - 1);
        } else {
            assert(r[i] == s[i - 1] && r[j] == s[j - 1]);
        }
    }
    vstd::seq_lib::to_multiset_insert(s, p, v);
}

/// Sorting keeps every card, each as often as before, and leaves them from
/// the highest to the lowest.
pub proof fn lemma_sort_descending(s: Seq<u8>)
    ensures
        descending(sort_descending(s)),
        sort_descending(s).len() == s.len(),
        sort_descending(s).to_multiset() == s.to_multiset(),
    decreases s.len(),
{
    if s.len() == 0 {
    } else {
        lemma_sort_descending(s.drop_last());
        lemma_insert_descending(sort_descending(s.drop_last()), s.last());
        assert(s.drop_last().push(s.last()) =~= s);
        vstd::seq_lib::to_multiset_build(s.drop_last(), s.last());
    }
}

/// What is left after taking values out is no longer than before, keeps the
/// order rule of a hand, and holds none of the values taken out.
pub proof fn lemma_without(s: Seq<u8>, values: Seq<u8>)
    ensures
        without(s, values).len() <= s.len(),
        forall|i: int|
            0 <= i < without(s, values).len() ==> !values.contains(
                #[trigger] without(s, values)[i],
            ) && s.contains(without(s, values)[i]),
        ascending(s) ==> ascending(without(s, values)),
    decreases s.len(),
{
    if s.len() > 0 {
        let head = s.drop_last();
        lemma_without(head, values);
        let w = without(s, values);
        let wh = without(head, values);
        assert forall|i: int| 0 <= i < w.len() implies !values.contains(#[trigger] w[i])
            && s.contains(w[i]) by {
            if i < wh.len() {
                assert(w[i] == wh[i]);
                assert(head.contains(wh[i]));
                let k = choose|k: int| 0 <= k < head.len() && head[k] == wh[i];
                assert(s[k] == wh[i]);
            } else {
                assert(w[i] == s.last());
                assert(s[s.len() - 1] == s.last());
            }
        }
        if ascending(s) {
            assert(ascending(head));
            assert forall|i: int, j: int| 0 <= i < j < w.len() implies w[i] <= w[j] by {
                if j < wh.len() {
                } else {
                    assert(w[j] == s.last());
                    assert(head.contains(wh[i]));
                    let k = choose|k: int| 0 <= k < head.len() && head[k] == wh[i];
                    assert(s[k] <= s[s.len() - 1]);
                }
            }
        }
    }
}

/// The first position of a value lies in the sequence where the sequence
/// holds the value, and no card before it has the value.
pub proof fn lemma_position_of(s: Seq<u8>, v: u8, from: int)
    requires
        0 <= from <= s.len(),
    ensures
        from <= position_of(s, v, from) <= s.len(),
        position_of(s, v, from) < s.len() ==> s[position_of(s, v, from)] == v,
        forall|i: int| from <= i < position_of(s, v, from) ==> s[i] != v,
    decreases s.len() - from,
{
    if from < s.len() && s[from] != v {
        lemma_position_of(s, v, from + 1);
    }
}

/// Taking out one card of a value that the sequence holds leaves one card
/// fewer: that card is gone and every other card stays, each as often as
/// before.
pub proof fn lemma_without_one(s: Seq<u8>, v: u8)
    ensures
        s.contains(v) ==> without_one(s, v).len() == s.len() - 1 && without_one(
            s,
            v,
        ).to_multiset() == s.to_multiset().remove(v),
        !s.contains(v) ==> without_one(s, v) == s,
{
    broadcast use vstd::seq_lib::group_to_multiset_ensures;

    lemma_position_of(s, v, 0);
    let k = position_of(s, v, 0);
    if s.contains(v) {
        let j = choose|j: int| 0 <= j < s.len() && s[j] == v;
        assert(k <= j);
        assert(s.remove(k).to_multiset() =~= s.to_multiset().remove(s[k]));
    } else if k < s.len() {
        assert(s[k] == v);
    }
}

/// Taking out one card for each card of a selection from the sequence
/// leaves as many cards fewer as were selected: what is left and what was
/// selected are together the cards of the sequence.
pub proof fn lemma_without_each(s: Seq<u8>, values: Seq<u8>)
    requires
        values.to_multiset().subset_of(s.to_multiset()),
    ensures
        without_each(s, values).len() == s.len() - values.len(),
        without_each(s, values).to_multiset().add(values.to_multiset()) == s.to_multiset(),
    decreases values.len(),
{
    broadcast use vstd::seq_lib::group_to_multiset_ensures;

    if values.len() == 0 {
        assert(values.to_multiset() =~= vstd::multiset::Multiset::<u8>::empty());
        assert(s.to_multiset().add(values.to_multiset()) =~= s.to_multiset());
    } else {
        let head = values.drop_last();
        let v = values.last();
        assert(head.push(v) =~= values);
        assert(values.to_multiset() =~= head.to_multiset().insert(v));
        assert(head.to_multiset().subset_of(s.to_multiset())) by {
            assert forall|x: u8| head.to_multiset().count(x) <= s.to_multiset().count(x) by {
                assert(values.to_multiset().count(x) <= s.to_multiset().count(x));
            }
        }
        lemma_without_each(s, head);
        let r = without_each(s, head);
        assert(values.to_multiset().count(v) <= s.to_multiset().count(v));
        assert(r.to_multiset().add(head.to_multiset()).count(v) == s.to_multiset().count(v));
        assert(r.to_multiset().count(v) >= 1);
        assert(r.contains(v));
        lemma_without_one(r, v);
        assert(without_each(s, values).to_multiset().add(values.to_multiset()) =~= s.to_multiset())
            by {
            assert forall|x: u8|
                without_each(s, values).to_multiset().add(values.to_multiset()).count(x)
                    == s.to_multiset().count(x) by {
                assert(r.to_multiset().add(head.to_multiset()).count(x) == s.to_multiset().count(
                    x,
                ));
            }
        }
    }
}

/// No card is higher than the highest, and the highest is one of the cards.
pub proof fn lemma_highest(s: Seq<u8>)
    ensures
        forall|i: int| 0 <= i < s.len() ==> s[i] <= highest(s),
        s.len() > 0 ==> s.contains(highest(s)),
    decreases s.len(),
{
    if s.len() > 0 {
        lemma_highest(s.drop_last());
        if s.last() >= highest(s.drop_last()) {
            assert(s[s.len() - 1] == highest(s));
        } else {
            let k = choose|k: int| 0 <= k < s.len() - 1 && s.drop_last()[k] == highest(
                s.drop_last(),
            );
            assert(s[k] == highest(s));
        }
        assert forall|i: int| 0 <= i < s.len() implies s[i] <= highest(s) by {
            if i < s.len() - 1 {
                assert(s.drop_last()[i] == s[i]);
            }
        }
    }
}

/// No card adds more than 255 to the total.
pub proof fn lemma_total_bound(s: Seq<u8>)
    ensures
        total(s) <= 255 * s.len(),
    decreases s.len(),
{
    if s.len() > 0 {
        lemma_total_bound(s.drop_last());
    }
}

/// Whether `values` holds `card`.
pub fn holds(values: &Vec<u8>, card: u8) -> (res: bool)
    ensures
        res == values@.contains(card),
{
    let mut i: usize = 0;
    while i < values.len()
        invariant
            i <= values.len(),
            forall|j: int| 0 <= j < i ==> values@[j] != card,
        decreases values.len() - i,
    {
        if values[i] == card {
            return true;
        }
        i += 1;
    }
    false
}

/// Puts `value` into an ascending hand, in front of the first card that is
/// not smaller.
pub fn insert_in_order(vec: &mut Vec<u8>, value: u8)
    ensures
        final(vec)@ == insert_ascending(old(vec)@, value),
{
    let mut i: usize = 0;
    while i < vec.len() && vec[i] < value
        invariant
            i <= vec.len(),
            *vec == *old(vec),
            first_at_least(vec@, value, 0) == first_at_least(vec@, value, i as int),
        decreases vec.len() - i,
    {
        i += 1;
    }
    vec.insert(i, value);
}

/// The cards of `values` from the highest to the lowest.
pub fn sorted_descending(values: &Vec<u8>) -> (res: Vec<u8>)
    ensures
        res@ == sort_descending(values@),
{
    let mut out: Vec<u8> = Vec::new();
    let mut i: usize = 0;
    while i < values.len()
        invariant
            i <= values.len(),
            out@ == sort_descending(values@.take(i as int)),
        decreases values.len() - i,
    {
        let v: u8 = values[i];
        let mut k: usize = 0;
        while k < out.len() && out[k] >= v
            invariant
                k <= out.len(),
                first_below(out@, v, 0) == first_below(out@, v, k as int),
            decreases out.len() - k,
        {
            k += 1;
        }
        proof {
            assert(values@.take(i + 1).drop_last() =~= values@.take(i as int));
            assert(values@.take(i + 1).last() == v);
        }
        out.insert(k, v);
        i += 1;
    }
    proof {
        assert(values@.take(values.len() as int) =~= values@);
    }
    out
}

/// `deck` without one card for each card of `values`.
pub fn remove_each(deck: &Vec<u8>, values: &Vec<u8>) -> (res: Vec<u8>)
    ensures
        res@ == without_each(deck@, values@),
{
    let mut out: Vec<u8> = deck.clone();
    let mut i: usize = 0;
    while i < values.len()
        invariant
            i <= values.len(),
            out@ == without_each(deck@, values@.take(i as int)),
        decreases values.len() - i,
    {
        let card: u8 = values[i];
        proof {
            assert(values@.take(i + 1).drop_last() =~= values@.take(i as int));
            assert(values@.take(i + 1).last() == card);
        }
        let mut k: usize = 0;
        while k < out.len() && out[k] != card
            invariant
                k <= out.len(),
                position_of(out@, card, 0) == position_of(out@, card, k as int),
            decreases out.len() - k,
        {
            k += 1;
        }
        if k < out.len() {
            out.remove(k);
        }
        i += 1;
    }
    proof {
        assert(values@.take(values.len() as int) =~= values@);
    }
    out
}

/// The cards of `deck` whose value does not occur in `values`, in their
/// order.
pub fn remove_values(deck: &Vec<u8>, values: &Vec<u8>) -> (res: Vec<u8>)
    ensures
        res@ == without(deck@, values@),
{
    let mut out: Vec<u8> = Vec::new();
    let mut i: usize = 0;
    while i < deck.len()
        invariant
            i <= deck.len(),
            out@ == without(deck@.take(i as int), values@),
        decreases deck.len() - i,
    {
        let card: u8 = deck[i];
        proof {
            assert(deck@.take(i + 1).drop_last() =~= deck@.take(i as int));
            assert(deck@.take(i + 1).last() == card);
        }
        if !holds(values, card) {
            out.push(card);
        }
        i += 1;
    }
    proof {
        assert(deck@.take(deck.len() as int) =~= deck@);
    }
    out
}

/// The highest of `values`, or 0 if there are none.
pub fn highest_of(values: &Vec<u8>) -> (res: u8)
    ensures
        res == highest(values@),
{
    let mut best: u8 = 0;
    let mut i: usize = 0;
    while i < values.len()
        invariant
            i <= values.len(),
            best == highest(values@.take(i as int)),
        decreases values.len() - i,
    {
        proof {
            assert(values@.take(i + 1).drop_last() =~= values@.take(i as int));
            assert(values@.take(i + 1).last() == values@[i as int]);
        }
        if values[i] >= best {
            best = values[i];
        }
        i += 1;
    }
    proof {
        assert(values@.take(values.len() as int) =~= values@);
    }
    best
}

/// The face values of `values` added up.
pub fn total_of(values: &Vec<u8>) -> (res: u128)
    ensures
        res == total(values@),
{
    let mut sum: u128 = 0;
    let mut i: usize = 0;
    while i < values.len()
        invariant
            i <= values.len(),
            sum == total(values@.take(i as int)),
            sum <= 255 * i,
        decreases values.len() - i,
    {
        proof {
            assert(values@.take(i + 1).drop_last() =~= values@.take(i as int));
            assert(values@.take(i + 1).last() == values@[i as int]);
        }
        sum = sum + values[i] as u128;
        i += 1;
    }
    proof {
        assert(values@.take(values.len() as int) =~= values@);
    }
    sum
}

} // verus!

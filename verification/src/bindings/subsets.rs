//! `Itertools::combinations` as the library uses it: what it yields is
//! stated here, and believed of the call.

use itertools::Itertools;
use vstd::prelude::*;

verus! {

/// `cards` with `card` put in front.
pub open spec fn led_by(card: u8, cards: Seq<u8>) -> Seq<u8> {
    seq![card] + cards
}

/// The selections of `k` cards from `cards`, each in the order of the
/// cards: first those that hold the first card, then those that do not.
pub open spec fn subsets_of(cards: Seq<u8>, k: nat) -> Seq<Seq<u8>>
    decreases cards.len(),
{
    if k == 0 {
        seq![Seq::<u8>::empty()]
    } else if cards.len() < k {
        Seq::empty()
    } else {
        subsets_of(cards.skip(1), (k - 1) as nat).map_values(|rest: Seq<u8>| led_by(cards[0], rest))
            + subsets_of(cards.skip(1), k)
    }
}

/// Every selection holds `k` cards, taken from distinct positions of
/// `cards`.
pub proof fn lemma_subsets(cards: Seq<u8>, k: nat, i: int)
    requires
        0 <= i < subsets_of(cards, k).len(),
    ensures
        subsets_of(cards, k)[i].len() == k,
        subsets_of(cards, k)[i].to_multiset().subset_of(cards.to_multiset()),
    decreases cards.len(),
{
    broadcast use vstd::seq_lib::group_to_multiset_ensures;

    if k == 0 {
        assert(subsets_of(cards, k)[i] =~= Seq::<u8>::empty());
        assert(Seq::<u8>::empty().to_multiset() =~= vstd::multiset::Multiset::<u8>::empty());
    } else if cards.len() >= k {
        let rest = cards.skip(1);
        let with = subsets_of(rest, (k - 1) as nat).map_values(
            |tail: Seq<u8>| led_by(cards[0], tail),
        );
        let without = subsets_of(rest, k);
        assert(cards =~= seq![cards[0]] + rest);
        vstd::seq_lib::lemma_multiset_commutative(seq![cards[0]], rest);
        if i < with.len() {
            let tail = subsets_of(rest, (k - 1) as nat)[i];
            lemma_subsets(rest, (k - 1) as nat, i);
            assert(subsets_of(cards, k)[i] == led_by(cards[0], tail));
            vstd::seq_lib::lemma_multiset_commutative(seq![cards[0]], tail);
            assert forall|x: u8|
                led_by(cards[0], tail).to_multiset().count(x) <= cards.to_multiset().count(x) by {
                assert(tail.to_multiset().count(x) <= rest.to_multiset().count(x));
            }
        } else {
            lemma_subsets(rest, k, i - with.len());
            assert(subsets_of(cards, k)[i] == without[i - with.len()]);
            assert forall|x: u8|
                without[i - with.len()].to_multiset().count(x) <= cards.to_multiset().count(x) by {
                assert(without[i - with.len()].to_multiset().count(x) <= rest.to_multiset().count(
                    x,
                ));
            }
        }
    }
}

/// `Itertools::combinations`, collected: every selection of `k` cards from
/// `cards`, in the order in which the iterator yields them, which is the
/// order of the positions that they are taken from.
#[verifier::external_body]
pub(crate) fn combinations(cards: &Vec<u8>, k: usize) -> (res: Vec<Vec<u8>>)
    ensures
        res@.len() == subsets_of(cards@, k as nat).len(),
        forall|i: int| 0 <= i < res@.len() ==> (#[trigger] res@[i])@ == subsets_of(cards@, k as nat)[i],
{
    cards.iter().copied().combinations(k).collect()
}

} // verus!

//! The player at the terminal: what is typed is read elsewhere; here it is
//! turned into a choice.

use crate::models::cards::holds;
use vstd::prelude::*;

verus! {

/// The number that a text of decimal digits stands for.
pub open spec fn digits_value(text: Seq<char>) -> int
    decreases text.len(),
{
    if text.len() == 0 {
        0
    } else {
        10 * digits_value(text.drop_last()) + (text.last() as int - '0' as int)
    }
}

/// Whether every character of `text` is a decimal digit.
pub open spec fn all_digits(text: Seq<char>) -> bool {
    forall|i: int| 0 <= i < text.len() ==> '0' <= #[trigger] text[i] <= '9'
}

/// The choice that a text of digits stands for: the text is one or more
/// decimal digits, and the number that they stand for is one of the
/// `legal_moves`.
pub open spec fn digits_choice(text: Seq<char>, legal_moves: Seq<u8>) -> Option<u8> {
    if text.len() > 0 && all_digits(text) && digits_value(text) <= u8::MAX && legal_moves.contains(
        digits_value(text) as u8,
    ) {
        Some(digits_value(text) as u8)
    } else {
        None
    }
}

/// The choice that a typed text stands for: a number in decimal digits,
/// which a plus sign may precede, that is one of the `legal_moves`.
pub open spec fn typed_choice(text: Seq<char>, legal_moves: Seq<u8>) -> Option<u8> {
    if text.len() > 0 && text[0] == '+' {
        digits_choice(text.skip(1), legal_moves)
    } else {
        digits_choice(text, legal_moves)
    }
}

proof fn lemma_digits_grow(text: Seq<char>)
    requires
        all_digits(text),
    ensures
        digits_value(text) >= 0,
        text.len() > 0 ==> digits_value(text) >= digits_value(text.drop_last()),
    decreases text.len(),
{
    if text.len() > 0 {
        assert forall|i: int| 0 <= i < text.drop_last().len() implies '0'
            <= #[trigger] text.drop_last()[i] <= '9' by {
            assert(text.drop_last()[i] == text[i]);
        }
        lemma_digits_grow(text.drop_last());
        assert('0' <= text[text.len() - 1] <= '9');
    }
}

proof fn lemma_digits_prefix(text: Seq<char>, k: int)
    requires
        all_digits(text),
        0 <= k <= text.len(),
    ensures
        all_digits(text.take(k)),
        0 <= digits_value(text.take(k)) <= digits_value(text),
    decreases text.len() - k,
{
    assert forall|i: int| 0 <= i < text.take(k).len() implies '0' <= #[trigger] text.take(k)[i]
        <= '9' by {
        assert(text.take(k)[i] == text[i]);
    }
    lemma_digits_grow(text.take(k));
    if k < text.len() {
        lemma_digits_prefix(text, k + 1);
        assert(text.take(k + 1).drop_last() =~= text.take(k));
        lemma_digits_grow(text.take(k + 1));
    } else {
        assert(text.take(k) =~= text);
    }
}

/// The player at the terminal.
pub struct HumanPlayer {
    id: u8,
    nickname: String,
}

impl HumanPlayer {
    /// The seat of the player.
    pub closed spec fn seat(&self) -> u8 {
        self.id
    }

    /// The name of the player.
    pub closed spec fn name(&self) -> String {
        self.nickname
    }

    /// A player for seat `id`.
    pub fn new(id: u8, nickname: String) -> (res: Self)
        ensures
            res.seat() == id,
            res.name() == nickname,
    {
        HumanPlayer { id, nickname }
    }

    /// The seat of the player.
    pub fn id(&self) -> (res: u8)
        ensures
            res == self.seat(),
    {
        self.id
    }

    /// The name of the player.
    pub fn nickname(&self) -> (res: String)
        ensures
            res@ == self.name()@,
    {
        self.nickname.clone()
    }

    /// The choice that the typed `input` stands for, if it stands for one
    /// of the `legal_moves`.
    pub fn read_choice(input: &str, legal_moves: &Vec<u8>) -> (res: Option<u8>)
        ensures
            res == typed_choice(input@, legal_moves@),
    {
        let len: usize = input.unicode_len();
        if len > 0 && input.get_char(0) == '+' {
            let digits: &str = input.substring_char(1, len);
            assert(digits@ =~= input@.skip(1));
            Self::read_digits(digits, legal_moves)
        } else {
            Self::read_digits(input, legal_moves)
        }
    }

    /// The choice that the digits of `input` stand for, if they stand for
    /// one of the `legal_moves`.
    pub fn read_digits(input: &str, legal_moves: &Vec<u8>) -> (res: Option<u8>)
        ensures
            res == digits_choice(input@, legal_moves@),
    {
        let len: usize = input.unicode_len();
        if len == 0 {
            return None;
        }
        let mut value: u16 = 0;
        let mut i: usize = 0;
        while i < len
            invariant
                len == input@.len(),
                i <= len,
                all_digits(input@.take(i as int)),
                value == digits_value(input@.take(i as int)),
                value <= u8::MAX,
            decreases len - i,
        {
            let c: char = input.get_char(i);
            proof {
                assert(input@.take(i + 1).drop_last() =~= input@.take(i as int));
                assert(input@.take(i + 1).last() == c);
            }
            if c < '0' || c > '9' {
                proof {
                    assert(!('0' <= input@[i as int] <= '9'));
                }
                return None;
            }
            let digit: u16 = (c as u32 - '0' as u32) as u16;
            let next: u16 = value * 10 + digit;
            proof {
                assert forall|k: int| 0 <= k < i + 1 implies '0' <= #[trigger] input@.take(i + 1)[k]
                    <= '9' by {
                    if k < i {
                        assert(input@.take(i as int)[k] == input@[k]);
                    }
                }
            }
            if next > 255 {
                proof {
                    if all_digits(input@) {
                        lemma_digits_prefix(input@, i + 1);
                    }
                }
                return None;
            }
            value = next;
            i += 1;
        }
        proof {
            assert(input@.take(len as int) =~= input@);
        }
        let choice: u8 = value as u8;
        if holds(legal_moves, choice) {
            Some(choice)
        } else {
            None
        }
    }
}

} // verus!

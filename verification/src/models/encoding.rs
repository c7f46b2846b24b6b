//! The text of a state's keys: decimal numbers, the segments that a path
//! encoding is made of, and the rule that finds a parent's key in a child's.

use vstd::prelude::*;

verus! {

/// The character that starts every segment of a path encoding.
pub open spec fn bar() -> char {
    '|'
}

/// The character for a single decimal digit.
pub open spec fn digit_char(d: nat) -> char {
    if d == 0 {
        '0'
    } else if d == 1 {
        '1'
    } else if d == 2 {
        '2'
    } else if d == 3 {
        '3'
    } else if d == 4 {
        '4'
    } else if d == 5 {
        '5'
    } else if d == 6 {
        '6'
    } else if d == 7 {
        '7'
    } else if d == 8 {
        '8'
    } else {
        '9'
    }
}

/// `x` in decimal, without leading zeros.
pub open spec fn decimal(x: nat) -> Seq<char>
    decreases x,
{
    if x < 10 {
        seq![digit_char(x)]
    } else {
        decimal(x / 10).push(digit_char(x % 10))
    }
}

/// `x` in decimal, with a leading zero where it has a single digit.
pub open spec fn decimal_padded(x: nat) -> Seq<char> {
    if x < 10 {
        seq!['0', digit_char(x)]
    } else {
        decimal(x)
    }
}

/// The numbers of `v` in decimal with `sep` between neighbours.
pub open spec fn joined(v: Seq<u8>, sep: char) -> Seq<char>
    decreases v.len(),
{
    if v.len() == 0 {
        Seq::empty()
    } else if v.len() == 1 {
        decimal(v[0] as nat)
    } else {
        joined(v.drop_last(), sep).push(sep) + decimal(v.last() as nat)
    }
}

/// The numbers of `v`, each in padded decimal, one after the other.
pub open spec fn packed(v: Seq<u8>) -> Seq<char>
    decreases v.len(),
{
    if v.len() == 0 {
        Seq::empty()
    } else {
        packed(v.drop_last()) + decimal_padded(v.last() as nat)
    }
}

/// The hands of `hands`, each packed, with `-` between neighbours.
pub open spec fn packed_hands(hands: Seq<Seq<u8>>) -> Seq<char>
    decreases hands.len(),
{
    if hands.len() == 0 {
        Seq::empty()
    } else if hands.len() == 1 {
        packed(hands[0])
    } else {
        packed_hands(hands.drop_last()).push('-') + packed(hands.last())
    }
}

/// The segment that records `player` taking `action`: the action comes
/// first, so that no delimiter is needed between the two numbers.
pub open spec fn action_segment(player: u8, action: u8) -> Seq<char> {
    seq![bar()] + decimal(action as nat) + seq!['P'] + decimal(player as nat)
}

/// The segment that records a batch of cards (`R`, a reveal) or the
/// players' offers (`S`, a sale).
pub open spec fn batch_segment(reveal: bool, v: Seq<u8>) -> Seq<char> {
    seq![bar(), if reveal { 'R' } else { 'S' }] + joined(v, ':')
}

/// The key of a game's first state.
pub open spec fn origin() -> Seq<char> {
    seq![bar(), 'O']
}

/// Whether `s` holds no segment delimiter.
pub open spec fn bar_free(s: Seq<char>) -> bool {
    forall|i: int| 0 <= i < s.len() ==> s[i] != bar()
}

/// The position of the last segment delimiter in `s`, or -1.
pub open spec fn last_bar(s: Seq<char>) -> int
    decreases s.len(),
{
    if s.len() == 0 {
        -1
    } else if s.last() == bar() {
        s.len() - 1
    } else {
        last_bar(s.drop_last())
    }
}

/// The key of the parent of the state with key `s`: `s` without its last
/// segment.
pub open spec fn parent_of(s: Seq<char>) -> Seq<char> {
    s.subrange(0, if last_bar(s) < 0 { 0 } else { last_bar(s) })
}

/// The last delimiter stands within the text, and there is none just where
/// the text holds none.
pub proof fn lemma_last_bar_range(s: Seq<char>)
    ensures
        -1 <= last_bar(s) < s.len(),
        last_bar(s) >= 0 ==> s[last_bar(s)] == bar(),
        last_bar(s) < 0 <==> bar_free(s),
    decreases s.len(),
{
    if s.len() > 0 {
        lemma_last_bar_range(s.drop_last());
        if s.last() != bar() {
            if bar_free(s.drop_last()) {
                assert forall|i: int| 0 <= i < s.len() implies s[i] != bar() by {
                    if i < s.len() - 1 {
                        assert(s.drop_last()[i] == s[i]);
                    }
                }
            } else {
                let k = choose|k: int|
                    0 <= k < s.drop_last().len() && !(s.drop_last()[k] != bar());
                assert(s[k] == bar());
            }
        } else {
            assert(s[s.len() - 1] == bar());
        }
    }
}

/// A text that ends in a delimiter and a tail without one has its last
/// delimiter right where the tail begins.
pub proof fn lemma_last_bar_append(head: Seq<char>, tail: Seq<char>)
    requires
        bar_free(tail),
    ensures
        last_bar(head.push(bar()) + tail) == head.len(),
        parent_of(head.push(bar()) + tail) == head,
    decreases tail.len(),
{
    let whole = head.push(bar()) + tail;
    if tail.len() == 0 {
        assert(whole =~= head.push(bar()));
    } else {
        assert(whole.last() == tail.last());
        assert(tail[tail.len() - 1] != bar());
        assert(whole.drop_last() =~= head.push(bar()) + tail.drop_last());
        assert forall|i: int| 0 <= i < tail.drop_last().len() implies tail.drop_last()[i]
            != bar() by {
            assert(tail.drop_last()[i] == tail[i]);
        }
        lemma_last_bar_append(head, tail.drop_last());
    }
    assert(whole.subrange(0, head.len() as int) =~= head);
}

/// A number in decimal holds a digit and no delimiter.
pub proof fn lemma_decimal_bar_free(x: nat)
    ensures
        bar_free(decimal(x)),
        decimal(x).len() >= 1,
    decreases x,
{
    if x >= 10 {
        lemma_decimal_bar_free(x / 10);
    }
}

/// Numbers joined by a separator other than the delimiter hold no delimiter.
pub proof fn lemma_joined_bar_free(v: Seq<u8>, sep: char)
    requires
        sep != bar(),
    ensures
        bar_free(joined(v, sep)),
    decreases v.len(),
{
    if v.len() == 1 {
        lemma_decimal_bar_free(v[0] as nat);
    } else if v.len() > 1 {
        lemma_joined_bar_free(v.drop_last(), sep);
        lemma_decimal_bar_free(v.last() as nat);
    }
}

/// Different numbers below 256 are written differently.
pub proof fn lemma_decimal_differs(a: u8, b: u8)
    requires
        a != b,
    ensures
        decimal(a as nat) != decimal(b as nat),
        decimal(a as nat).len() == (if a < 10 {
            1int
        } else if a < 100 {
            2int
        } else {
            3int
        }),
{
    reveal_with_fuel(decimal, 3);
    let x = decimal(a as nat);
    let y = decimal(b as nat);
    if x.len() == y.len() {
        if a < 10 {
            assert(x[0] != y[0]);
        } else if a < 100 {
            assert(x[0] != y[0] || x[1] != y[1]);
        } else {
            assert(x[0] != y[0] || x[1] != y[1] || x[2] != y[2]);
        }
    }
}

/// Different actions of a player are recorded in different segments, and
/// so lead to different keys.
pub proof fn lemma_action_keys_differ(path: Seq<char>, player: u8, a: u8, b: u8)
    requires
        a != b,
    ensures
        path + action_segment(player, a) != path + action_segment(player, b),
{
    lemma_decimal_differs(a, b);
    lemma_decimal_differs(b, a);
    let x = path + action_segment(player, a);
    let y = path + action_segment(player, b);
    let da = decimal(a as nat);
    let db = decimal(b as nat);
    if x == y {
        assert(x.len() == y.len());
        assert(da.len() == db.len());
        assert forall|i: int| 0 <= i < da.len() implies da[i] == db[i] by {
            assert(x[path.len() + 1 + i] == da[i]);
            assert(y[path.len() + 1 + i] == db[i]);
        }
        assert(da =~= db);
    }
}

/// The key of a state reached by an action has the key before the action as
/// its parent.
pub proof fn lemma_parent_of_action(path: Seq<char>, player: u8, action: u8)
    ensures
        parent_of(path + action_segment(player, action)) == path,
        last_bar(path + action_segment(player, action)) == path.len(),
{
    let tail = decimal(action as nat) + seq!['P'] + decimal(player as nat);
    lemma_decimal_bar_free(action as nat);
    lemma_decimal_bar_free(player as nat);
    assert(bar_free(tail));
    assert(path + action_segment(player, action) =~= path.push(bar()) + tail);
    lemma_last_bar_append(path, tail);
}

/// The key of a state reached by a reveal or a sale has the key before it
/// as its parent.
pub proof fn lemma_parent_of_batch(path: Seq<char>, reveal: bool, v: Seq<u8>)
    ensures
        parent_of(path + batch_segment(reveal, v)) == path,
        last_bar(path + batch_segment(reveal, v)) == path.len(),
{
    let tail = seq![if reveal { 'R' } else { 'S' }] + joined(v, ':');
    lemma_joined_bar_free(v, ':');
    assert(bar_free(tail));
    assert(path + batch_segment(reveal, v) =~= path.push(bar()) + tail);
    lemma_last_bar_append(path, tail);
}

/// The text of one decimal digit.
fn digit_str(d: u8) -> (res: &'static str)
    requires
        d < 10,
    ensures
        res@ == seq![digit_char(d as nat)],
{
    proof {
        reveal_strlit("0");
        reveal_strlit("1");
        reveal_strlit("2");
        reveal_strlit("3");
        reveal_strlit("4");
        reveal_strlit("5");
        reveal_strlit("6");
        reveal_strlit("7");
        reveal_strlit("8");
        reveal_strlit("9");
    }
    let res = if d == 0 {
        "0"
    } else if d == 1 {
        "1"
    } else if d == 2 {
        "2"
    } else if d == 3 {
        "3"
    } else if d == 4 {
        "4"
    } else if d == 5 {
        "5"
    } else if d == 6 {
        "6"
    } else if d == 7 {
        "7"
    } else if d == 8 {
        "8"
    } else {
        "9"
    };
    assert(res@ =~= seq![digit_char(d as nat)]);
    res
}

/// Appends `x` in decimal.
pub fn append_decimal(s: &mut String, x: u8)
    ensures
        final(s)@ == old(s)@ + decimal(x as nat),
{
    proof {
        reveal_with_fuel(decimal, 3);
    }
    if x >= 100 {
        s.append(digit_str(x / 100));
        s.append(digit_str((x / 10) % 10));
        s.append(digit_str(x % 10));
        assert(s@ =~= old(s)@ + decimal(x as nat));
    } else if x >= 10 {
        s.append(digit_str(x / 10));
        s.append(digit_str(x % 10));
        assert(s@ =~= old(s)@ + decimal(x as nat));
    } else {
        s.append(digit_str(x));
    }
}

/// Appends `x` in decimal.
pub fn append_number(s: &mut String, x: u128)
    ensures
        final(s)@ == old(s)@ + decimal(x as nat),
    decreases x,
{
    if x >= 10 {
        append_number(s, x / 10);
        s.append(digit_str((x % 10) as u8));
        assert(s@ =~= old(s)@ + decimal(x as nat));
    } else {
        s.append(digit_str(x as u8));
    }
}

/// Appends `x` in decimal, with a leading zero where it has a single digit.
pub fn append_padded(s: &mut String, x: u8)
    ensures
        final(s)@ == old(s)@ + decimal_padded(x as nat),
{
    if x < 10 {
        s.append(digit_str(0));
        s.append(digit_str(x));
        assert(s@ =~= old(s)@ + decimal_padded(x as nat));
    } else {
        append_decimal(s, x);
    }
}

/// Appends the numbers of `v` in decimal with `:` between neighbours.
pub fn append_joined(s: &mut String, v: &Vec<u8>)
    ensures
        final(s)@ == old(s)@ + joined(v@, ':'),
{
    let mut i: usize = 0;
    while i < v.len()
        invariant
            i <= v.len(),
            s@ == old(s)@ + joined(v@.take(i as int), ':'),
        decreases v.len() - i,
    {
        proof {
            reveal_strlit(":");
            assert(v@.take(i + 1).drop_last() =~= v@.take(i as int));
            assert(v@.take(i + 1).last() == v@[i as int]);
            assert(v@.take(i + 1)[0] == v@[0]);
        }
        let ghost before = s@;
        if i > 0 {
            s.append(":");
            assert(s@ =~= before.push(':'));
        }
        let ghost mid = s@;
        append_decimal(s, v[i]);
        assert(s@ =~= old(s)@ + joined(v@.take(i + 1), ':'));
        i += 1;
    }
    proof {
        assert(v@.take(v.len() as int) =~= v@);
    }
}

/// Appends the numbers of `v`, each in padded decimal.
pub fn append_packed(s: &mut String, v: &Vec<u8>)
    ensures
        final(s)@ == old(s)@ + packed(v@),
{
    let mut i: usize = 0;
    while i < v.len()
        invariant
            i <= v.len(),
            s@ == old(s)@ + packed(v@.take(i as int)),
        decreases v.len() - i,
    {
        proof {
            assert(v@.take(i + 1).drop_last() =~= v@.take(i as int));
            assert(v@.take(i + 1).last() == v@[i as int]);
        }
        append_padded(s, v[i]);
        assert(s@ =~= old(s)@ + packed(v@.take(i + 1)));
        i += 1;
    }
    proof {
        assert(v@.take(v.len() as int) =~= v@);
    }
}

} // verus!

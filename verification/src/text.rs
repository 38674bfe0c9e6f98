//! Decimal numbers and card lists written as text.
use crate::hands::{suite_char, value_char, Card};
use vstd::prelude::*;

verus! {

pub open spec fn digit_char(d: int) -> char {
    ((d + 48) as u32) as char
}

/// The decimal digits of `n`, without leading zeros ("0" for zero).
pub open spec fn decimal(n: nat) -> Seq<char>
    decreases n,
{
    if n < 10 {
        seq![digit_char(n as int)]
    } else {
        decimal(n / 10).push(digit_char((n % 10) as int))
    }
}

/// The code of a card, as `Card::to_string` writes it.
pub open spec fn card_text(c: Card) -> Seq<char> {
    seq![value_char(c.value), suite_char(c.suite)]
}

/// Card codes separated by single spaces.
pub open spec fn cards_text(cards: Seq<Card>) -> Seq<char>
    decreases cards.len(),
{
    if cards.len() == 0 {
        Seq::empty()
    } else if cards.len() == 1 {
        card_text(cards[0])
    } else {
        cards_text(cards.drop_last()) + seq![' '] + card_text(cards.last())
    }
}

/// All cards have a value from ace to king.
pub open spec fn cards_printable(cards: Seq<Card>) -> bool {
    forall|i: int| 0 <= i < cards.len() ==> 1 <= #[trigger] cards[i].value <= 13
}

fn digit_str(d: u32) -> (s: &'static str)
    requires
        d < 10,
    ensures
        s@ == seq![digit_char(d as int)],
{
    proof {
        reveal_strlit("0");
        reveal_strlit("1");
        reveal_strlit("2");
        reveal_strlit("3");
        reveal_strlit("4");
        reveal_strlit("5");
        reveal_strlit("6");
        reveal_strlit("7");
        reveal_strlit("8");
        reveal_strlit("9");
    }
    match d {
        0 => "0",
        1 => "1",
        2 => "2",
        3 => "3",
        4 => "4",
        5 => "5",
        6 => "6",
        7 => "7",
        8 => "8",
        _ => "9",
    }
}

/// Appends the decimal digits of `n`.
pub fn push_decimal(s: &mut String, n: u32)
    ensures
        final(s)@ == old(s)@ + decimal(n as nat),
    decreases n,
{
    if n >= 10 {
        push_decimal(s, n / 10);
    }
    s.append(digit_str(n % 10));
    proof {
        if n >= 10 {
            assert(decimal(n as nat) == decimal((n / 10) as nat).push(digit_char((n % 10) as int)));
        }
    }
    assert(s@ =~= old(s)@ + decimal(n as nat));
}

/// Appends a card's code.
pub fn push_card(s: &mut String, c: &Card)
    requires
        1 <= c.value <= 13,
    ensures
        final(s)@ == old(s)@ + card_text(*c),
{
    let t = c.to_string();
    s.append(t.as_str());
    assert(s@ =~= old(s)@ + card_text(*c));
}

/// Appends card codes separated by single spaces.
pub fn push_cards(s: &mut String, cards: &[Card])
    requires
        cards_printable(cards@),
    ensures
        final(s)@ == old(s)@ + cards_text(cards@),
{
    let ghost s0 = s@;
    let mut i: usize = 0;
    while i < cards.len()
        invariant
            i <= cards@.len(),
            cards_printable(cards@),
            s@ == s0 + cards_text(cards@.subrange(0, i as int)),
        decreases cards.len() - i,
    {
        let ghost pre = cards@.subrange(0, i as int);
        let ghost next = cards@.subrange(0, i + 1);
        assert(next.drop_last() =~= pre);
        assert(1 <= cards@[i as int].value <= 13);
        if i > 0 {
            s.append(" ");
            proof {
                reveal_strlit(" ");
            }
        }
        push_card(s, &cards[i]);
        i = i + 1;
        proof {
            if i == 1 {
                assert(pre.len() == 0);
                assert(cards_text(pre) =~= Seq::<char>::empty());
            }
        }
        assert(s@ =~= s0 + cards_text(cards@.subrange(0, i as int)));
    }
    assert(cards@.subrange(0, cards@.len() as int) =~= cards@);
}

} // verus!

//! The text form of a board: the number of cards in play, then the piles
//! in canonical order, as in `(4)<[4][3][1 2]_>`.

use crate::board::{piles_view, Board};
use crate::model::BoardView;
use vstd::prelude::*;

verus! {

/// The character of the digit `d`.
pub open spec fn digit_char(d: int) -> char {
    (48 + d) as u8 as char
}

/// The decimal digits of `n`, highest first, without leading zeros.
pub open spec fn decimal(n: nat) -> Seq<char>
    decreases n,
{
    if n < 10 {
        seq![digit_char(n as int)]
    } else {
        decimal(n / 10).push(digit_char((n % 10) as int))
    }
}

/// The cards of a pile from the bottom up, a space between two cards.
pub open spec fn render_cards(pile: Seq<u8>) -> Seq<char>
    decreases pile.len(),
{
    if pile.len() == 0 {
        Seq::empty()
    } else if pile.len() == 1 {
        decimal(pile[0] as nat)
    } else {
        render_cards(pile.drop_last()) + seq![' '] + decimal(pile.last() as nat)
    }
}

/// A pile in brackets, the top card last; an empty pile as an underscore.
pub open spec fn render_pile(pile: Seq<u8>) -> Seq<char> {
    if pile.len() == 0 {
        seq!['_']
    } else {
        seq!['['] + render_cards(pile) + seq![']']
    }
}

/// The piles one after the other.
pub open spec fn render_piles(piles: Seq<Seq<u8>>) -> Seq<char>
    decreases piles.len(),
{
    if piles.len() == 0 {
        Seq::empty()
    } else {
        render_piles(piles.drop_last()) + render_pile(piles.last())
    }
}

/// The text of a board: `(`, the number of cards in play, `)<`, the piles in
/// canonical order, `>`.
pub open spec fn render(board: BoardView) -> Seq<char> {
    seq!['('] + decimal(board.nbr_cards as nat) + seq![')', '<'] + render_piles(board.canonical())
        + seq!['>']
}

/// Appends the decimal digits of `n` to `out`.
fn push_decimal(out: &mut Vec<char>, n: usize)
    ensures
        final(out)@ == old(out)@ + decimal(n as nat),
    decreases n,
{
    if n >= 10 {
        push_decimal(out, n / 10);
    }
    let d: u8 = (n % 10) as u8;
    out.push((48 + d) as char);
    proof {
        if n < 10 {
            assert(final(out)@ =~= old(out)@ + decimal(n as nat));
        } else {
            assert(final(out)@ =~= old(out)@ + decimal(n as nat));
        }
    }
}

/// Appends the text of `pile` to `out`.
fn push_pile(out: &mut Vec<char>, pile: &Vec<u8>)
    ensures
        final(out)@ == old(out)@ + render_pile(pile@),
{
    if pile.len() == 0 {
        out.push('_');
        assert(out@ =~= old(out)@ + render_pile(pile@));
        return ;
    }
    out.push('[');
    let ghost start = out@;
    push_decimal(out, pile[0] as usize);
    assert(pile@.take(1) =~= seq![pile@[0]]);
    assert(render_cards(pile@.take(1)) == decimal(pile@[0] as nat));
    let mut i: usize = 1;
    while i < pile.len()
        invariant
            1 <= i <= pile.len(),
            out@ == start + render_cards(pile@.take(i as int)),
        decreases pile.len() - i,
    {
        let ghost before = out@;
        out.push(' ');
        push_decimal(out, pile[i] as usize);
        proof {
            let head = pile@.take(i + 1);
            assert(head.drop_last() =~= pile@.take(i as int));
            assert(head.last() == pile@[i as int]);
            assert(out@ =~= start + render_cards(head));
        }
        i += 1;
    }
    assert(pile@.take(i as int) =~= pile@);
    out.push(']');
    assert(out@ =~= old(out)@ + render_pile(pile@));
}

/// The string of the characters `chars`, as `String::from_iter` collects
/// them: the same characters in the same order.
#[verifier::external_body]
fn string_from_chars(chars: &Vec<char>) -> (s: String)
    ensures
        s@ == chars@,
{
    String::from_iter(chars.iter())
}

impl Board {
    /// The text of the board, for a reader: not a format to parse.
    pub fn to_string(&self) -> (text: String)
        requires
            self.wf(),
        ensures
            text@ == render(self@),
    {
        let piles = self.relative_piles();
        let mut out: Vec<char> = Vec::new();
        out.push('(');
        push_decimal(&mut out, self.active_cards());
        out.push(')');
        out.push('<');
        let ghost start = out@;
        assert(start =~= seq!['('] + decimal(self@.nbr_cards as nat) + seq![')', '<']);
        let ghost shown = piles_view(piles@);
        let mut rank: usize = 0;
        assert(shown.take(0) =~= Seq::<Seq<u8>>::empty());
        while rank < piles.len()
            invariant
                rank <= piles.len(),
                shown == piles_view(piles@),
                out@ == start + render_piles(shown.take(rank as int)),
            decreases piles.len() - rank,
        {
            push_pile(&mut out, &piles[rank]);
            proof {
                let head = shown.take(rank + 1);
                assert(head.drop_last() =~= shown.take(rank as int));
                assert(head.last() == piles@[rank as int]@);
                assert(out@ =~= start + render_piles(head));
            }
            rank += 1;
        }
        assert(shown.take(rank as int) =~= shown);
        out.push('>');
        assert(out@ =~= render(self@));
        string_from_chars(&out)
    }
}

} // verus!

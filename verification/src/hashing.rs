//! Keyed hashing of boards by their canonical form, with SipHash from the
//! `siphasher` crate. The key is handed in by the caller: no seed is hidden
//! in the process.

use crate::board::{piles_view, Board};
use crate::model::BoardView;
use siphasher::sip::SipHasher;
use vstd::prelude::*;

verus! {

/// The SipHash-2-4 digest of `bytes` under the 16 bytes of `key`.
pub uninterp spec fn sip_hash(key: Seq<u8>, bytes: Seq<u8>) -> u64;

/// The digest that `siphasher`'s `SipHasher::new_with_key(key).hash(bytes)`
/// returns. It is a function of the key and the bytes alone, and that is all
/// this contract claims of it.
#[verifier::external_body]
fn sip_digest(key: &[u8; 16], bytes: &Vec<u8>) -> (digest: u64)
    ensures
        digest == sip_hash(key@, bytes@),
{
    SipHasher::new_with_key(key).hash(bytes.as_slice())
}

/// The bytes that stand for piles in a hash: the cards of each pile from the
/// bottom up, and a zero, which is no card, after each pile.
pub open spec fn encode_piles(piles: Seq<Seq<u8>>) -> Seq<u8>
    decreases piles.len(),
{
    if piles.len() == 0 {
        Seq::empty()
    } else {
        encode_piles(piles.drop_last()) + piles.last() + seq![0u8]
    }
}

/// No pile of `piles` holds a zero.
pub open spec fn no_zero_card(piles: Seq<Seq<u8>>) -> bool {
    forall|p: int, i: int|
        0 <= p < piles.len() && 0 <= i < piles[p].len() ==> #[trigger] piles[p][i] != 0
}

/// The bytes of piles are empty or end with the zero after the last pile.
proof fn lemma_encode_ends_with_zero(piles: Seq<Seq<u8>>)
    ensures
        piles.len() == 0 ==> encode_piles(piles).len() == 0,
        piles.len() > 0 ==> encode_piles(piles).len() > 0 && encode_piles(piles).last() == 0,
{
}

/// Piles of cards are told by their bytes: piles without a zero that have
/// the same bytes are the same piles.
pub proof fn lemma_encode_is_injective(a: Seq<Seq<u8>>, b: Seq<Seq<u8>>)
    requires
        no_zero_card(a),
        no_zero_card(b),
        encode_piles(a) == encode_piles(b),
    ensures
        a == b,
    decreases a.len(),
{
    lemma_encode_ends_with_zero(a);
    lemma_encode_ends_with_zero(b);
    if a.len() > 0 {
        let a0 = a.drop_last();
        let b0 = b.drop_last();
        let head_a = encode_piles(a0);
        let head_b = encode_piles(b0);
        let la = a.last();
        let lb = b.last();
        let bytes = encode_piles(a);
        assert(bytes == head_a + la + seq![0u8]);
        assert(bytes == head_b + lb + seq![0u8]);
        lemma_encode_ends_with_zero(a0);
        lemma_encode_ends_with_zero(b0);
        if head_a.len() < head_b.len() {
            let at = head_b.len() - 1;
            assert(bytes[at] == head_b[at]);
            assert(bytes[at] == la[at - head_a.len()]);
            assert(a[a.len() - 1][at - head_a.len()] != 0);
        }
        if head_b.len() < head_a.len() {
            let at = head_a.len() - 1;
            assert(bytes[at] == head_a[at]);
            assert(bytes[at] == lb[at - head_b.len()]);
            assert(b[b.len() - 1][at - head_b.len()] != 0);
        }
        assert(head_a =~= head_b) by {
            assert forall|i: int| 0 <= i < head_a.len() implies head_a[i] == head_b[i] by {
                assert(bytes[i] == head_a[i]);
                assert(bytes[i] == head_b[i]);
            }
        }
        assert(la =~= lb) by {
            assert(la.len() == lb.len());
            assert forall|i: int| 0 <= i < la.len() implies la[i] == lb[i] by {
                assert(bytes[head_a.len() + i] == la[i]);
                assert(bytes[head_a.len() + i] == lb[i]);
            }
        }
        assert(no_zero_card(a0)) by {
            assert forall|p: int, i: int|
                0 <= p < a0.len() && 0 <= i < a0[p].len() implies #[trigger] a0[p][i] != 0 by {
                assert(a0[p][i] == a[p][i]);
            }
        }
        assert(no_zero_card(b0)) by {
            assert forall|p: int, i: int|
                0 <= p < b0.len() && 0 <= i < b0[p].len() implies #[trigger] b0[p][i] != 0 by {
                assert(b0[p][i] == b[p][i]);
            }
        }
        lemma_encode_is_injective(a0, b0);
        assert(a =~= a0.push(la));
        assert(b =~= b0.push(lb));
    } else {
        assert(a =~= b);
    }
}

/// Two boards have the same bytes exactly when they show the same piles in
/// canonical order.
pub proof fn lemma_same_bytes_same_piles(a: BoardView, b: BoardView)
    requires
        a.wf(),
        b.wf(),
    ensures
        encode_piles(a.canonical()) == encode_piles(b.canonical()) <==> a.canonical()
            == b.canonical(),
{
    a.lemma_ranks();
    b.lemma_ranks();
    if encode_piles(a.canonical()) == encode_piles(b.canonical()) {
        lemma_encode_is_injective(a.canonical(), b.canonical());
    }
}

/// The hash of a board under `key`: that of its piles in canonical order.
pub open spec fn board_hash(board: BoardView, key: Seq<u8>) -> u64 {
    sip_hash(key, encode_piles(board.canonical()))
}

/// Boards that show the same piles in canonical order have the same hash
/// under every key.
pub proof fn lemma_equal_boards_hash_alike(a: BoardView, b: BoardView, key: Seq<u8>)
    requires
        a.canonical() == b.canonical(),
    ensures
        board_hash(a, key) == board_hash(b, key),
{
}

impl Board {
    /// The bytes that stand for the board in a hash.
    pub fn canonical_bytes(&self) -> (bytes: Vec<u8>)
        requires
            self.wf(),
        ensures
            bytes@ == encode_piles(self@.canonical()),
    {
        let piles = self.relative_piles();
        let ghost shown = piles_view(piles@);
        let mut bytes: Vec<u8> = Vec::new();
        let mut rank: usize = 0;
        assert(shown.take(0) =~= Seq::<Seq<u8>>::empty());
        while rank < piles.len()
            invariant
                rank <= piles.len(),
                shown == piles_view(piles@),
                bytes@ == encode_piles(shown.take(rank as int)),
            decreases piles.len() - rank,
        {
            let pile = &piles[rank];
            let ghost before = bytes@;
            let mut i: usize = 0;
            while i < pile.len()
                invariant
                    i <= pile.len(),
                    bytes@ == before + pile@.take(i as int),
                decreases pile.len() - i,
            {
                bytes.push(pile[i]);
                assert(pile@.take(i + 1) =~= pile@.take(i as int).push(pile@[i as int]));
                assert(bytes@ =~= before + pile@.take(i + 1));
                i += 1;
            }
            bytes.push(0);
            proof {
                assert(pile@.take(i as int) =~= pile@);
                let head = shown.take(rank + 1);
                assert(head.drop_last() =~= shown.take(rank as int));
                assert(head.last() == pile@);
                assert(bytes@ =~= encode_piles(head));
            }
            rank += 1;
        }
        assert(shown.take(rank as int) =~= shown);
        bytes
    }

    /// The hash of the board under `key`. It depends on the piles in
    /// canonical order only, not on the slots they lie in.
    pub fn keyed_hash(&self, key: &[u8; 16]) -> (digest: u64)
        requires
            self.wf(),
        ensures
            digest == board_hash(self@, key@),
    {
        let bytes = self.canonical_bytes();
        sip_digest(key, &bytes)
    }
}

} // verus!

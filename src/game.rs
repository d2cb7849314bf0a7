//! A hold'em situation: known cards, random completion, and the showdown.
use vstd::prelude::*;
use crate::card::Card;
use crate::deck::{full_deck, lemma_full_deck, Deck};
use crate::hands::{is_five_card_hand, matching_pairs, one_if, ranks, strength_of, stronger, Hand};
use itertools::Itertools;

verus! {

broadcast use {
    vstd::seq_lib::group_seq_properties,
    vstd::seq_lib::group_to_multiset_ensures,
    vstd::seq_lib::lemma_multiset_commutative,
    vstd::multiset::group_multiset_axioms,
};

/// With five board cards dealt, 52 cards give two hole cards to at most this many players.
pub const MAX_PLAYERS: usize = 23;

/// What is known of a situation: some board cards, and for each player
/// either both hole cards or nothing.
pub struct GameSpec {
    pub board: Vec<Card>,
    pub hole_cards: Vec<Option<(Card, Card)>>,
}

/// Why a situation cannot be set up.
#[derive(Debug, Clone, Copy, PartialEq, Eq, Structural)]
pub enum SetupError {
    /// More than five board cards are given.
    BoardTooLong,
    /// More players than the deck can deal to.
    TooManyPlayers,
    /// A given card has a rank outside 2..=14.
    InvalidCard,
    /// A card is given twice.
    DuplicateCard,
}

/// The two cards of a pair, in order.
pub open spec fn pair_cards(p: (Card, Card)) -> Seq<Card> {
    seq![p.0, p.1]
}

/// The hole cards of all players, two by two in player order.
pub open spec fn hole_seq(h: Seq<(Card, Card)>) -> Seq<Card>
    decreases h.len(),
{
    if h.len() == 0 {
        Seq::empty()
    } else {
        hole_seq(h.drop_last()) + pair_cards(h.last())
    }
}

/// The known hole cards of a situation, two by two in player order.
pub open spec fn known_holes(h: Seq<Option<(Card, Card)>>) -> Seq<Card>
    decreases h.len(),
{
    if h.len() == 0 {
        Seq::empty()
    } else {
        known_holes(h.drop_last()) + match h.last() {
            Some(p) => pair_cards(p),
            None => Seq::empty(),
        }
    }
}

/// How many players' hole cards are unknown.
pub open spec fn unknown_count(h: Seq<Option<(Card, Card)>>) -> int
    decreases h.len(),
{
    if h.len() == 0 {
        0
    } else {
        unknown_count(h.drop_last()) + one_if(h.last() is None)
    }
}

/// Reading the cards in order, the first problem met: a card that is not
/// valid, or a card that was already read.
pub open spec fn first_problem(s: Seq<Card>) -> Option<SetupError>
    decreases s.len(),
{
    if s.len() == 0 {
        None
    } else if first_problem(s.drop_last()) is Some {
        first_problem(s.drop_last())
    } else if !s.last().is_valid() {
        Some(SetupError::InvalidCard)
    } else if s.drop_last().contains(s.last()) {
        Some(SetupError::DuplicateCard)
    } else {
        None
    }
}

impl GameSpec {
    /// The given cards: the board, then the known hole cards in player order.
    pub open spec fn known_cards(&self) -> Seq<Card> {
        self.board@ + known_holes(self.hole_cards@)
    }

    /// Why this situation cannot be set up, if it cannot.
    pub open spec fn setup_error(&self) -> Option<SetupError> {
        if self.board@.len() > 5 {
            Some(SetupError::BoardTooLong)
        } else if self.hole_cards@.len() > MAX_PLAYERS {
            Some(SetupError::TooManyPlayers)
        } else {
            first_problem(self.known_cards())
        }
    }
}

proof fn lemma_first_problem_prefix(s: Seq<Card>, k: int)
    requires
        0 <= k <= s.len(),
        first_problem(s.take(k)) is Some,
    ensures
        first_problem(s) == first_problem(s.take(k)),
    decreases s.len() - k,
{
    if k < s.len() {
        assert(s.take(k + 1).drop_last() =~= s.take(k));
        assert(first_problem(s.take(k + 1)) == first_problem(s.take(k)));
        lemma_first_problem_prefix(s, k + 1);
    } else {
        assert(s.take(k) =~= s);
    }
}

/// Cards read without a problem are all valid and all different.
pub proof fn lemma_no_problem(s: Seq<Card>)
    requires
        first_problem(s) is None,
    ensures
        s.no_duplicates(),
        forall|i: int| 0 <= i < s.len() ==> #[trigger] s[i].is_valid(),
    decreases s.len(),
{
    if s.len() > 0 {
        let t = s.drop_last();
        lemma_no_problem(t);
        assert(s =~= t.push(s.last()));
        assert forall|i: int, j: int| 0 <= i < s.len() && 0 <= j < s.len() && i != j implies s[i]
            != s[j] by {
            if j == s.len() - 1 {
                assert(t[i] == s[i]);
            } else if i == s.len() - 1 {
                assert(t[j] == s[j]);
            }
        }
        assert forall|i: int| 0 <= i < s.len() implies #[trigger] s[i].is_valid() by {
            if i < s.len() - 1 {
                assert(t[i] == s[i]);
            }
        }
    }
}

proof fn lemma_known_holes_step(h: Seq<Option<(Card, Card)>>, i: int)
    requires
        0 <= i < h.len(),
    ensures
        known_holes(h.take(i + 1)) == known_holes(h.take(i)) + match h[i] {
            Some(p) => pair_cards(p),
            None => Seq::empty(),
        },
        unknown_count(h.take(i + 1)) == unknown_count(h.take(i)) + one_if(h[i] is None),
{
    assert(h.take(i + 1).drop_last() =~= h.take(i));
}

proof fn lemma_unknown_count_prefix(h: Seq<Option<(Card, Card)>>, k: int)
    requires
        0 <= k <= h.len(),
    ensures
        unknown_count(h.take(k)) <= unknown_count(h),
    decreases h.len() - k,
{
    if k < h.len() {
        lemma_known_holes_step(h, k);
        lemma_unknown_count_prefix(h, k + 1);
    } else {
        assert(h.take(k) =~= h);
    }
}

proof fn lemma_known_holes_len(h: Seq<Option<(Card, Card)>>)
    ensures
        known_holes(h).len() + 2 * unknown_count(h) == 2 * h.len(),
    decreases h.len(),
{
    if h.len() > 0 {
        lemma_known_holes_len(h.drop_last());
    }
}

proof fn lemma_hole_seq_push(h: Seq<(Card, Card)>, p: (Card, Card))
    ensures
        hole_seq(h.push(p)) == hole_seq(h) + pair_cards(p),
{
    assert(h.push(p).drop_last() =~= h);
}

fn collect_known(spec: &GameSpec) -> (v: Vec<Card>)
    ensures
        v@ == spec.known_cards(),
{
    let mut v: Vec<Card> = Vec::new();
    let mut i: usize = 0;
    while i < spec.board.len()
        invariant
            0 <= i <= spec.board@.len(),
            v@ == spec.board@.take(i as int),
        decreases spec.board@.len() - i,
    {
        v.push(spec.board[i]);
        i = i + 1;
        assert(v@ =~= spec.board@.take(i as int));
    }
    assert(spec.board@.take(i as int) =~= spec.board@);
    let mut j: usize = 0;
    assert(spec.hole_cards@.take(0) =~= Seq::<Option<(Card, Card)>>::empty());
    assert(v@ =~= spec.board@ + known_holes(spec.hole_cards@.take(0)));
    while j < spec.hole_cards.len()
        invariant
            0 <= j <= spec.hole_cards@.len(),
            v@ == spec.board@ + known_holes(spec.hole_cards@.take(j as int)),
        decreases spec.hole_cards@.len() - j,
    {
        proof {
            lemma_known_holes_step(spec.hole_cards@, j as int);
        }
        if let Some((a, b)) = spec.hole_cards[j] {
            v.push(a);
            v.push(b);
        }
        j = j + 1;
        assert(v@ =~= spec.board@ + known_holes(spec.hole_cards@.take(j as int)));
    }
    assert(spec.hole_cards@.take(j as int) =~= spec.hole_cards@);
    v
}

/// Takes each of `cards` out of a fresh deck, stopping at the first problem.
fn take_out_known(deck: &mut Deck, cards: &Vec<Card>) -> (r: Result<(), SetupError>)
    requires
        old(deck)@ == full_deck(),
    ensures
        r == match first_problem(cards@) {
            Some(e) => Err::<(), SetupError>(e),
            None => Ok(()),
        },
        r is Ok ==> final(deck)@.to_multiset().add(cards@.to_multiset()) == full_deck().to_multiset(),
{
    proof {
        lemma_full_deck();
        full_deck().lemma_multiset_has_no_duplicates();
    }
    let mut i: usize = 0;
    assert(cards@.take(0) =~= Seq::<Card>::empty());
    assert(deck@.to_multiset().add(cards@.take(0).to_multiset()) =~= full_deck().to_multiset());
    while i < cards.len()
        invariant
            0 <= i <= cards@.len(),
            first_problem(cards@.take(i as int)) is None,
            deck@.to_multiset().add(cards@.take(i as int).to_multiset()) == full_deck().to_multiset(),
            forall|c: Card| #[trigger] full_deck().contains(c) <==> c.is_valid(),
            forall|c: Card| full_deck().contains(c) ==> #[trigger] full_deck().to_multiset().count(c) == 1,
            forall|c: Card| !full_deck().contains(c) ==> #[trigger] full_deck().to_multiset().count(c) == 0,
        decreases cards@.len() - i,
    {
        let c = cards[i];
        let ghost done = cards@.take(i as int);
        assert(cards@.take(i + 1) =~= done.push(c));
        assert(cards@.take(i + 1).drop_last() =~= done);
        if c.rank < 2 || c.rank > 14 {
            proof {
                lemma_first_problem_prefix(cards@, i + 1);
            }
            return Err(SetupError::InvalidCard);
        }
        let ghost before = deck@;
        match deck.remove(c) {
            Ok(_) => {
                assert(full_deck().to_multiset().count(c) == 1);
                assert(before.to_multiset().count(c) >= 1);
                assert(!done.contains(c));
                assert(deck@.to_multiset().add(done.push(c).to_multiset()) =~= full_deck().to_multiset());
            },
            Err(_) => {
                assert(full_deck().to_multiset().count(c) == 1);
                assert(before.to_multiset().count(c) == 0);
                assert(done.contains(c));
                proof {
                    lemma_first_problem_prefix(cards@, i + 1);
                }
                return Err(SetupError::DuplicateCard);
            },
        }
        i = i + 1;
    }
    assert(cards@.take(i as int) =~= cards@);
    Ok(())
}


/// The `k`-th pair dealt from `pool`: its cards at `2k` and `2k + 1`.
pub open spec fn dealt_pair(pool: Seq<Card>, k: int) -> (Card, Card) {
    (pool[2 * k], pool[2 * k + 1])
}

/// `p` is an order of the cards that `spec` leaves unknown.
pub open spec fn completes(spec: GameSpec, p: Seq<Card>) -> bool {
    p.to_multiset().add(spec.known_cards().to_multiset()) == full_deck().to_multiset()
}

/// Each player's hole cards when the unknown ones are dealt from `p`: two
/// cards each from its front, in player order.
pub open spec fn holes_from(spec: GameSpec, p: Seq<Card>) -> Seq<(Card, Card)> {
    Seq::new(
        spec.hole_cards@.len() as nat,
        |i: int|
            match spec.hole_cards@[i] {
                Some(q) => q,
                None => dealt_pair(p, unknown_count(spec.hole_cards@.take(i))),
            },
    )
}

/// The five board cards when the unknown cards are dealt from `p`: the known
/// board, then the cards after the hole cards.
pub open spec fn board_from(spec: GameSpec, p: Seq<Card>) -> Seq<Card> {
    spec.board@ + p.skip(2 * unknown_count(spec.hole_cards@)).take(5 - spec.board@.len())
}

/// `g` was dealt from `p`, an order of the cards that `spec` leaves unknown:
/// the players whose hole cards are unknown take two cards each from the
/// front of `p`, in player order, and the rest of `p` is the pool.
pub open spec fn dealt_from(spec: GameSpec, g: Game, p: Seq<Card>) -> bool {
    &&& completes(spec, p)
    &&& g.holes() == holes_from(spec, p)
    &&& g.pool() == p.skip(2 * unknown_count(spec.hole_cards@))
}

/// Gives each player its known hole cards, or two cards drawn from the deck.
fn deal_holes(deck: &mut Deck, holes: &Vec<Option<(Card, Card)>>) -> (r: Vec<(Card, Card)>)
    requires
        old(deck)@.len() >= 2 * unknown_count(holes@),
    ensures
        final(deck)@.len() == old(deck)@.len() - 2 * unknown_count(holes@),
        final(deck)@.to_multiset().add(hole_seq(r@).to_multiset()) == old(deck)@.to_multiset().add(
            known_holes(holes@).to_multiset(),
        ),
        r@.len() == holes@.len(),
        forall|i: int| 0 <= i < holes@.len() && #[trigger] holes@[i] is Some ==> r@[i] == holes@[i].unwrap(),
        final(deck)@ == old(deck)@.skip(2 * unknown_count(holes@)),
        forall|i: int|
            0 <= i < holes@.len() && #[trigger] holes@[i] is None ==> r@[i] == dealt_pair(
                old(deck)@,
                unknown_count(holes@.take(i)),
            ),
{
    let ghost start = deck@;
    let mut r: Vec<(Card, Card)> = Vec::new();
    let mut i: usize = 0;
    assert(holes@.take(0) =~= Seq::<Option<(Card, Card)>>::empty());
    assert(deck@.to_multiset().add(hole_seq(r@).to_multiset()) =~= start.to_multiset().add(
        known_holes(holes@.take(0)).to_multiset(),
    ));
    while i < holes.len()
        invariant
            0 <= i <= holes@.len(),
            r@.len() == i,
            start.len() >= 2 * unknown_count(holes@),
            deck@.len() == start.len() - 2 * unknown_count(holes@.take(i as int)),
            deck@.to_multiset().add(hole_seq(r@).to_multiset()) == start.to_multiset().add(
                known_holes(holes@.take(i as int)).to_multiset(),
            ),
            forall|k: int| 0 <= k < i && #[trigger] holes@[k] is Some ==> r@[k] == holes@[k].unwrap(),
            0 <= unknown_count(holes@.take(i as int)),
            deck@ == start.skip(2 * unknown_count(holes@.take(i as int))),
            forall|k: int|
                0 <= k < i && #[trigger] holes@[k] is None ==> r@[k] == dealt_pair(
                    start,
                    unknown_count(holes@.take(k)),
                ),
        decreases holes@.len() - i,
    {
        proof {
            lemma_known_holes_step(holes@, i as int);
            lemma_unknown_count_prefix(holes@, i + 1);
        }
        let ghost r_before = r@;
        let ghost d_before = deck@;
        let ghost known_before = known_holes(holes@.take(i as int));
        let ghost known_after = known_holes(holes@.take(i + 1));
        if let Some(pair) = holes[i] {
            r.push(pair);
            proof {
                lemma_hole_seq_push(r_before, pair);
                assert(r@ =~= r_before.push(pair));
                assert(known_after =~= known_before + pair_cards(pair));
                assert(hole_seq(r@).to_multiset() =~= hole_seq(r_before).to_multiset().add(
                    pair_cards(pair).to_multiset(),
                ));
                assert(known_after.to_multiset() =~= known_before.to_multiset().add(
                    pair_cards(pair).to_multiset(),
                ));
                assert forall|v: Card| #[trigger] deck@.to_multiset().add(
                    hole_seq(r@).to_multiset(),
                ).count(v) == start.to_multiset().add(known_after.to_multiset()).count(v) by {
                    assert(d_before.to_multiset().add(hole_seq(r_before).to_multiset()).count(v)
                        == start.to_multiset().add(known_before.to_multiset()).count(v));
                }
                assert(deck@.to_multiset().add(hole_seq(r@).to_multiset()) =~= start.to_multiset().add(
                    known_after.to_multiset(),
                ));
            }
        } else {
            let a = deck.draw().unwrap();
            let ghost mid = deck@;
            let b = deck.draw().unwrap();
            r.push((a, b));
            proof {
                let u = unknown_count(holes@.take(i as int));
                assert(a == d_before[0] && d_before[0] == start[2 * u]);
                assert(b == mid[0] && mid[0] == d_before[1] && d_before[1] == start[2 * u + 1]);
                assert(deck@ =~= start.skip(2 * u + 2));
                assert(deck@ =~= start.skip(2 * unknown_count(holes@.take(i + 1))));
                assert((a, b) == dealt_pair(start, unknown_count(holes@.take(i as int))));
                assert(d_before =~= pair_cards((a, b)) + deck@);
                lemma_hole_seq_push(r_before, (a, b));
                assert(r@ =~= r_before.push((a, b)));
                assert(known_after =~= known_before);
                assert(hole_seq(r@).to_multiset() =~= hole_seq(r_before).to_multiset().add(
                    pair_cards((a, b)).to_multiset(),
                ));
                assert(d_before.to_multiset() =~= pair_cards((a, b)).to_multiset().add(
                    deck@.to_multiset(),
                ));
                assert forall|v: Card| #[trigger] deck@.to_multiset().add(
                    hole_seq(r@).to_multiset(),
                ).count(v) == start.to_multiset().add(known_after.to_multiset()).count(v) by {
                    assert(d_before.to_multiset().add(hole_seq(r_before).to_multiset()).count(v)
                        == start.to_multiset().add(known_before.to_multiset()).count(v));
                }
                assert(deck@.to_multiset().add(hole_seq(r@).to_multiset()) =~= start.to_multiset().add(
                    known_after.to_multiset(),
                ));
            }
        }
        i = i + 1;
    }
    assert(holes@.take(i as int) =~= holes@);
    assert forall|k: int| 0 <= k < holes@.len() && #[trigger] holes@[k] is None implies r@[k]
        == dealt_pair(start, unknown_count(holes@.take(k))) by {}
    r
}


fn copy_cards(v: &Vec<Card>) -> (r: Vec<Card>)
    ensures
        r@ == v@,
{
    let mut r: Vec<Card> = Vec::new();
    let mut i: usize = 0;
    while i < v.len()
        invariant
            0 <= i <= v@.len(),
            r@ == v@.take(i as int),
        decreases v@.len() - i,
    {
        r.push(v[i]);
        i = i + 1;
        assert(r@ =~= v@.take(i as int));
    }
    assert(v@.take(i as int) =~= v@);
    r
}

/// A situation with every player's hole cards dealt, a partial board, and the
/// cards left to deal.
pub struct Game {
    deck: Deck,
    board: Vec<Card>,
    hole_cards: Vec<(Card, Card)>,
}

impl Game {
    /// The board cards dealt so far.
    pub closed spec fn board_cards(&self) -> Seq<Card> {
        self.board@
    }

    /// Each player's two hole cards, in player order.
    pub closed spec fn holes(&self) -> Seq<(Card, Card)> {
        self.hole_cards@
    }

    /// The cards left to deal, in dealing order.
    pub closed spec fn pool(&self) -> Seq<Card> {
        self.deck@
    }

    /// The board cards dealt so far.
    pub fn board(&self) -> (r: &Vec<Card>)
        ensures
            r@ == self.board_cards(),
    {
        &self.board
    }

    /// Each player's hole cards, in player order.
    pub fn hole_cards(&self) -> (r: &Vec<(Card, Card)>)
        ensures
            r@ == self.holes(),
    {
        &self.hole_cards
    }

    /// How many cards are left to deal.
    pub fn cards_left(&self) -> (n: usize)
        ensures
            n == self.pool().len(),
    {
        self.deck.len()
    }

    /// Every card of the game: board, hole cards, then the pool.
    pub open spec fn all_cards(&self) -> Seq<Card> {
        self.board_cards() + hole_seq(self.holes()) + self.pool()
    }

    /// Board, hole cards and pool together hold the standard deck, each card
    /// once; the board has at most five cards and the pool can fill it.
    pub open spec fn wf(&self) -> bool {
        &&& self.all_cards().to_multiset() == full_deck().to_multiset()
        &&& self.board_cards().len() <= 5
        &&& self.pool().len() + self.board_cards().len() >= 5
    }

    /// Deals a situation whose known cards are all in order from `deck`, an
    /// order of the cards it leaves unknown.
    fn deal_game(spec: &GameSpec, deck: Deck) -> (g: Game)
        requires
            spec.setup_error() is None,
            completes(*spec, deck@),
        ensures
            g.wf(),
            g.board_cards() == spec.board@,
            g.holes() == holes_from(*spec, deck@),
            g.pool() == deck@.skip(2 * unknown_count(spec.hole_cards@)),
    {
        let ghost start = deck@;
        let ghost known = spec.known_cards();
        proof {
            lemma_known_holes_len(spec.hole_cards@);
            lemma_full_deck();
            assert(start.len() + known.len() == 52) by {
                assert(start.to_multiset().add(known.to_multiset()).len() == full_deck().to_multiset().len());
            }
        }
        let mut deck = deck;
        let hole_cards = deal_holes(&mut deck, &spec.hole_cards);
        let board = copy_cards(&spec.board);
        let g = Game { deck, board, hole_cards };
        proof {
            let kh = known_holes(spec.hole_cards@);
            let hs = hole_seq(hole_cards@);
            assert forall|v: Card| #[trigger] g.all_cards().to_multiset().count(v)
                == full_deck().to_multiset().count(v) by {
                assert(start.to_multiset().add(known.to_multiset()).count(v) == full_deck().to_multiset().count(v));
                assert(deck@.to_multiset().add(hs.to_multiset()).count(v) == start.to_multiset().add(
                    kh.to_multiset(),
                ).count(v));
                assert((board@ + kh).to_multiset() == board@.to_multiset().add(kh.to_multiset()));
                assert((board@ + hs).to_multiset() == board@.to_multiset().add(hs.to_multiset()));
                assert((board@ + hs + deck@).to_multiset() == (board@ + hs).to_multiset().add(
                    deck@.to_multiset(),
                ));
            }
            assert(g.all_cards().to_multiset() =~= full_deck().to_multiset());
            assert(hole_cards@ =~= holes_from(*spec, start));
        }
        g
    }

    /// Sets up a situation: checks what is known, takes the known cards out of
    /// a fresh deck, shuffles the rest, and deals two cards to each player
    /// whose hole cards are unknown, in player order.
    pub fn from_spec(spec: &GameSpec) -> (r: Result<Game, SetupError>)
        ensures
            r is Err <==> spec.setup_error() is Some,
            r is Err ==> r == Err::<Game, SetupError>(spec.setup_error().unwrap()),
            r is Ok ==> {
                let g = r.unwrap();
                &&& g.wf()
                &&& g.board_cards() == spec.board@
                &&& g.holes().len() == spec.hole_cards@.len()
                &&& forall|i: int|
                    0 <= i < spec.hole_cards@.len() && #[trigger] spec.hole_cards@[i] is Some
                        ==> g.holes()[i] == spec.hole_cards@[i].unwrap()
                &&& exists|p: Seq<Card>| #[trigger] dealt_from(*spec, g, p)
            },
    {
        if spec.board.len() > 5 {
            return Err(SetupError::BoardTooLong);
        }
        if spec.hole_cards.len() > MAX_PLAYERS {
            return Err(SetupError::TooManyPlayers);
        }
        let known = collect_known(spec);
        let mut deck = Deck::new();
        match take_out_known(&mut deck, &known) {
            Err(e) => {
                return Err(e);
            },
            Ok(()) => {},
        }
        let ghost left = deck@;
        proof {
            lemma_known_holes_len(spec.hole_cards@);
            lemma_full_deck();
            assert(left.len() + known@.len() == 52) by {
                assert(left.to_multiset().add(known@.to_multiset()).len() == full_deck().to_multiset().len());
            }
        }
        deck.shuffle();
        let ghost shuffled = deck@;
        proof {
            assert forall|v: Card| #[trigger] shuffled.to_multiset().add(spec.known_cards().to_multiset()).count(v)
                == full_deck().to_multiset().count(v) by {
                assert(left.to_multiset().add(known@.to_multiset()).count(v) == full_deck().to_multiset().count(v));
            }
            assert(completes(*spec, shuffled));
        }
        let g = Game::deal_game(spec, deck);
        assert(dealt_from(*spec, g, shuffled));
        Ok(g)
    }

    /// Deals cards from the pool onto the board until it holds five.
    pub fn deal_down_to_river(&mut self)
        requires
            old(self).wf(),
        ensures
            final(self).wf(),
            final(self).board_cards().len() == 5,
            final(self).board_cards() == old(self).board_cards() + old(self).pool().take(
                5 - old(self).board_cards().len(),
            ),
            final(self).pool() == old(self).pool().skip(5 - old(self).board_cards().len()),
            final(self).holes() == old(self).holes(),
    {
        let ghost start = *self;
        let ghost k = 5 - start.board@.len();
        while self.board.len() < 5
            invariant
                self.wf(),
                self.hole_cards@ == start.hole_cards@,
                start.board@.len() <= self.board@.len() <= 5,
                self.board@ == start.board@ + start.deck@.take(self.board@.len() - start.board@.len()),
                self.deck@ == start.deck@.skip(self.board@.len() - start.board@.len()),
                start.deck@.len() + start.board@.len() >= 5,
            decreases 5 - self.board@.len(),
        {
            let ghost before = *self;
            let c = self.deck.draw().unwrap();
            self.board.push(c);
            proof {
                let n = self.board@.len() - start.board@.len();
                assert(self.board@ =~= start.board@ + start.deck@.take(n));
                assert(self.deck@ =~= start.deck@.skip(n));
                let hs = hole_seq(self.hole_cards@);
                assert(before.deck@ =~= seq![c] + self.deck@);
                assert forall|v: Card| #[trigger] self.all_cards().to_multiset().count(v)
                    == before.all_cards().to_multiset().count(v) by {
                    assert((before.board@ + hs + before.deck@).to_multiset() == (before.board@ + hs).to_multiset().add(
                        before.deck@.to_multiset(),
                    ));
                    assert((self.board@ + hs + self.deck@).to_multiset() == (self.board@ + hs).to_multiset().add(
                        self.deck@.to_multiset(),
                    ));
                    assert((before.board@ + hs).to_multiset() == before.board@.to_multiset().add(hs.to_multiset()));
                    assert((self.board@ + hs).to_multiset() == self.board@.to_multiset().add(hs.to_multiset()));
                    assert(self.board@ == before.board@.push(c));
                    assert(before.deck@.to_multiset() == seq![c].to_multiset().add(self.deck@.to_multiset()));
                }
                assert(self.all_cards().to_multiset() =~= before.all_cards().to_multiset());
            }
        }
    }
}


/// `s` lists `k` of the indices `0..n`, each below `n`, in increasing order.
pub open spec fn is_choice(s: Seq<usize>, n: int, k: int) -> bool {
    &&& s.len() == k
    &&& forall|i: int, j: int| 0 <= i < j < k ==> s[i] < s[j]
    &&& forall|i: int| 0 <= i < k ==> s[i] < n
}

/// The cards at the chosen indices.
pub open spec fn pick(cards: Seq<Card>, s: Seq<usize>) -> Seq<Card> {
    s.map_values(|i: usize| cards[i as int])
}

/// `st` is the strength of some five of `cards`, and no five of them are stronger.
pub open spec fn is_best_strength(cards: Seq<Card>, st: (int, int)) -> bool {
    &&& exists|s: Seq<usize>| #[trigger]
        is_choice(s, cards.len() as int, 5) && strength_of(pick(cards, s)) == st
    &&& forall|s: Seq<usize>| #[trigger]
        is_choice(s, cards.len() as int, 5) ==> !stronger(strength_of(pick(cards, s)), st)
}

/// The strength of the strongest five of `cards`.
pub open spec fn best_strength(cards: Seq<Card>) -> (int, int) {
    choose|st: (int, int)| is_best_strength(cards, st)
}

/// Relies on itertools' `Itertools::combinations` over the range `0..n`: it
/// yields every `k`-element combination of the range, each as a vector in the
/// order of the range.
#[verifier::external_body]
fn index_combinations(n: usize, k: usize) -> (r: Vec<Vec<usize>>)
    ensures
        forall|i: int| 0 <= i < r@.len() ==> is_choice(#[trigger] r@[i]@, n as int, k as int),
        forall|s: Seq<usize>|
            is_choice(s, n as int, k as int) ==> exists|i: int|
                0 <= i < r@.len() && #[trigger] r@[i]@ == s,
{
    (0..n).combinations(k).collect()
}

/// Five different valid cards never share one rank: there are only four suits.
proof fn lemma_five_distinct_cards(c: Seq<Card>)
    requires
        c.len() == 5,
        c.no_duplicates(),
        forall|i: int| 0 <= i < 5 ==> #[trigger] c[i].is_valid(),
    ensures
        is_five_card_hand(c),
{
    if matching_pairs(ranks(c)) == 10 {
        assert(c[0] != c[1] && c[0] != c[2] && c[0] != c[3] && c[0] != c[4]);
        assert(c[1] != c[2] && c[1] != c[3] && c[1] != c[4]);
        assert(c[2] != c[3] && c[2] != c[4] && c[3] != c[4]);
        assert(c[0].rank == c[1].rank && c[0].rank == c[2].rank && c[0].rank == c[3].rank
            && c[0].rank == c[4].rank);
    }
}

proof fn lemma_best_strength(cards: Seq<Card>, st: (int, int))
    requires
        is_best_strength(cards, st),
    ensures
        best_strength(cards) == st,
{
    let b = best_strength(cards);
    assert(is_best_strength(cards, b));
    let s1 = choose|s: Seq<usize>| #[trigger]
        is_choice(s, cards.len() as int, 5) && strength_of(pick(cards, s)) == st;
    let s2 = choose|s: Seq<usize>| #[trigger]
        is_choice(s, cards.len() as int, 5) && strength_of(pick(cards, s)) == b;
    assert(!stronger(strength_of(pick(cards, s1)), b));
    assert(!stronger(strength_of(pick(cards, s2)), st));
}

/// The five cards of `cards` at the indices `idx`.
fn pick_cards(cards: &Vec<Card>, idx: &Vec<usize>) -> (r: Vec<Card>)
    requires
        forall|i: int| 0 <= i < idx@.len() ==> idx@[i] < cards@.len(),
    ensures
        r@ == pick(cards@, idx@),
{
    let mut r: Vec<Card> = Vec::new();
    let mut t: usize = 0;
    while t < idx.len()
        invariant
            0 <= t <= idx@.len(),
            forall|i: int| 0 <= i < idx@.len() ==> idx@[i] < cards@.len(),
            r@ == pick(cards@, idx@.take(t as int)),
        decreases idx@.len() - t,
    {
        r.push(cards[idx[t]]);
        t = t + 1;
        assert(r@ =~= pick(cards@, idx@.take(t as int)));
    }
    assert(idx@.take(t as int) =~= idx@);
    r
}

/// The strongest hand among all five-card choices from `cards`.
pub fn best_hand(cards: &Vec<Card>) -> (h: Hand)
    requires
        5 <= cards@.len(),
        cards@.no_duplicates(),
        forall|i: int| 0 <= i < cards@.len() ==> #[trigger] cards@[i].is_valid(),
    ensures
        h.wf(),
        exists|s: Seq<usize>| #[trigger] is_choice(s, cards@.len() as int, 5) && h.cards@ == pick(cards@, s),
        h.strength() == best_strength(cards@),
        no_choice_beats(h, cards@),
{
    let combos = index_combinations(cards.len(), 5);
    let ghost n = cards@.len() as int;
    let ghost first = seq![0usize, 1usize, 2usize, 3usize, 4usize];
    assert(is_choice(first, n, 5));
    let mut best: Option<Hand> = None;
    let mut i: usize = 0;
    while i < combos.len()
        invariant
            0 <= i <= combos@.len(),
            forall|k: int| 0 <= k < combos@.len() ==> is_choice(#[trigger] combos@[k]@, n, 5),
            n == cards@.len(),
            5 <= n,
            cards@.no_duplicates(),
            forall|k: int| 0 <= k < cards@.len() ==> #[trigger] cards@[k].is_valid(),
            i == 0 <==> best is None,
            best is Some ==> best.unwrap().wf() && exists|k: int|
                0 <= k < i && best.unwrap().cards@ == #[trigger] pick(cards@, combos@[k]@),
            best is Some ==> forall|k: int|
                0 <= k < i ==> !stronger(
                    strength_of(#[trigger] pick(cards@, combos@[k]@)),
                    best.unwrap().strength(),
                ),
        decreases combos@.len() - i,
    {
        let idx = &combos[i];
        let five = pick_cards(cards, idx);
        proof {
            let s = combos@[i as int]@;
            assert forall|a: int, b: int| 0 <= a < b < 5 implies five@[a] != five@[b] by {
                assert(s[a] < s[b]);
            }
            assert forall|a: int| 0 <= a < 5 implies #[trigger] five@[a].is_valid() by {
                assert(cards@[s[a] as int].is_valid());
            }
            lemma_five_distinct_cards(five@);
        }
        let hand = Hand::new(five);
        let better = match &best {
            None => true,
            Some(b) => hand.beats(b),
        };
        if better {
            best = Some(hand);
        }
        i = i + 1;
    }
    assert(combos@.len() > 0) by {
        let k = choose|k: int| 0 <= k < combos@.len() && #[trigger] combos@[k]@ == first;
    }
    let h = best.unwrap();
    proof {
        assert forall|s: Seq<usize>| #[trigger] is_choice(s, n, 5) implies !stronger(
            strength_of(pick(cards@, s)),
            h.strength(),
        ) by {
            let k = choose|k: int| 0 <= k < combos@.len() && #[trigger] combos@[k]@ == s;
        }
        let k = choose|k: int| 0 <= k < combos@.len() && h.cards@ == #[trigger] pick(cards@, combos@[k]@);
        assert(is_choice(combos@[k]@, n, 5));
        assert(is_best_strength(cards@, h.strength()));
        lemma_best_strength(cards@, h.strength());
    }
    h
}


proof fn lemma_hole_seq_index(h: Seq<(Card, Card)>)
    ensures
        hole_seq(h).len() == 2 * h.len(),
        forall|i: int|
            0 <= i < h.len() ==> hole_seq(h)[2 * i] == (#[trigger] h[i]).0 && hole_seq(h)[2 * i + 1]
                == h[i].1,
    decreases h.len(),
{
    if h.len() > 0 {
        let t = h.drop_last();
        lemma_hole_seq_index(t);
        assert forall|i: int| 0 <= i < h.len() implies hole_seq(h)[2 * i] == (#[trigger] h[i]).0
            && hole_seq(h)[2 * i + 1] == h[i].1 by {
            if i < h.len() - 1 {
                assert(t[i] == h[i]);
            }
        }
    }
}

/// No five of `cards` make a hand stronger than `h`.
pub open spec fn no_choice_beats(h: Hand, cards: Seq<Card>) -> bool {
    forall|s: Seq<usize>| #[trigger]
        is_choice(s, cards.len() as int, 5) ==> !stronger(strength_of(pick(cards, s)), h.strength())
}

/// The hand's cards are five of `cards`, taken in order at increasing positions.
pub open spec fn made_from(h: Hand, cards: Seq<Card>) -> bool {
    exists|s: Seq<usize>| #[trigger] is_choice(s, cards.len() as int, 5) && h.cards@ == pick(cards, s)
}

/// The seven cards that a player makes a hand from: two hole cards and the board.
pub open spec fn player_cards(hole: (Card, Card), board: Seq<Card>) -> Seq<Card> {
    pair_cards(hole) + board
}

impl Game {
    proof fn lemma_player_cards(&self, i: int)
        requires
            self.wf(),
            self.board_cards().len() == 5,
            0 <= i < self.holes().len(),
        ensures
            player_cards(self.holes()[i], self.board_cards()).len() == 7,
            player_cards(self.holes()[i], self.board_cards()).no_duplicates(),
            forall|k: int|
                0 <= k < 7 ==> #[trigger] player_cards(self.holes()[i], self.board_cards())[k].is_valid(),
    {
        let a = self.all_cards();
        lemma_full_deck();
        full_deck().lemma_multiset_has_no_duplicates();
        a.lemma_multiset_has_no_duplicates_conv();
        lemma_hole_seq_index(self.holes());
        let pc = player_cards(self.holes()[i], self.board_cards());
        let pos = seq![5 + 2 * i, 6 + 2 * i, 0, 1, 2, 3, 4];
        assert forall|k: int| 0 <= k < 7 implies pc[k] == a[#[trigger] pos[k]] by {}
        assert forall|k: int| 0 <= k < 7 implies #[trigger] pc[k].is_valid() by {
            assert(a.contains(a[pos[k]]));
            assert(a.to_multiset().count(pc[k]) > 0);
            assert(full_deck().to_multiset().count(pc[k]) > 0);
            assert(full_deck().contains(pc[k]));
        }
        assert forall|x: int, y: int| 0 <= x < 7 && 0 <= y < 7 && x != y implies pc[x] != pc[y] by {
            assert(pc[x] == a[pos[x]] && pc[y] == a[pos[y]]);
        }
    }

    /// The strongest hand that a player makes from the hole cards `hole` and the board.
    fn get_scoring_hand_for_player(&self, hole: &(Card, Card)) -> (h: Hand)
        requires
            self.board_cards().len() == 5,
            player_cards(*hole, self.board_cards()).no_duplicates(),
            forall|k: int|
                0 <= k < 7 ==> #[trigger] player_cards(*hole, self.board_cards())[k].is_valid(),
        ensures
            h.wf(),
            h.strength() == best_strength(player_cards(*hole, self.board_cards())),
            made_from(h, player_cards(*hole, self.board_cards())),
            no_choice_beats(h, player_cards(*hole, self.board_cards())),
    {
        let mut all_cards: Vec<Card> = Vec::new();
        all_cards.push(hole.0);
        all_cards.push(hole.1);
        let mut i: usize = 0;
        while i < self.board.len()
            invariant
                0 <= i <= 5,
                self.board@.len() == 5,
                all_cards@ == pair_cards(*hole) + self.board@.take(i as int),
            decreases 5 - i,
        {
            all_cards.push(self.board[i]);
            i = i + 1;
            assert(all_cards@ =~= pair_cards(*hole) + self.board@.take(i as int));
        }
        assert(self.board@.take(5) =~= self.board@);
        best_hand(&all_cards)
    }

    /// Each player's strongest hand, in player order.
    pub fn get_player_hands(&self) -> (r: Vec<Hand>)
        requires
            self.wf(),
            self.board_cards().len() == 5,
        ensures
            r@.len() == self.holes().len(),
            forall|i: int|
                0 <= i < r@.len() ==> (#[trigger] r@[i]).wf() && r@[i].strength() == best_strength(
                    player_cards(self.holes()[i], self.board_cards()),
                ) && made_from(r@[i], player_cards(self.holes()[i], self.board_cards())),
    {
        let mut r: Vec<Hand> = Vec::new();
        let mut i: usize = 0;
        while i < self.hole_cards.len()
            invariant
                self.wf(),
                self.board_cards().len() == 5,
                0 <= i <= self.hole_cards@.len(),
                r@.len() == i,
                forall|k: int|
                    0 <= k < i ==> (#[trigger] r@[k]).wf() && r@[k].strength() == best_strength(
                        player_cards(self.holes()[k], self.board_cards()),
                    ) && made_from(r@[k], player_cards(self.holes()[k], self.board_cards())),
            decreases self.hole_cards@.len() - i,
        {
            proof {
                self.lemma_player_cards(i as int);
            }
            let h = self.get_scoring_hand_for_player(&self.hole_cards[i]);
            r.push(h);
            i = i + 1;
        }
        r
    }

    /// The strength of player `i`'s best hand.
    pub open spec fn player_strength(&self, i: int) -> (int, int) {
        best_strength(player_cards(self.holes()[i], self.board_cards()))
    }

    /// Player `i` holds a hand that no other player's hand beats.
    pub open spec fn is_winner(&self, i: int) -> bool {
        &&& 0 <= i < self.holes().len()
        &&& forall|j: int|
            0 <= j < self.holes().len() ==> !stronger(#[trigger] self.player_strength(j), self.player_strength(i))
    }

    /// The players whose hands tie for the best, in player order, each with its hand.
    pub fn get_winning_players_and_hands(&self) -> (r: Vec<(usize, Hand)>)
        requires
            self.wf(),
            self.board_cards().len() == 5,
            self.holes().len() > 0,
        ensures
            r@.len() > 0,
            forall|k: int| 0 <= k < r@.len() ==> self.is_winner((#[trigger] r@[k]).0 as int),
            forall|k: int|
                0 <= k < r@.len() ==> (#[trigger] r@[k]).1.wf() && r@[k].1.strength()
                    == self.player_strength(r@[k].0 as int) && made_from(
                    r@[k].1,
                    player_cards(self.holes()[r@[k].0 as int], self.board_cards()),
                ),
            forall|k: int, l: int| 0 <= k < l < r@.len() ==> (#[trigger] r@[k]).0 < (#[trigger] r@[l]).0,
            forall|i: int| #[trigger] self.is_winner(i) ==> exists|k: int| 0 <= k < r@.len() && (#[trigger] r@[k]).0 == i,
    {
        let hands = self.get_player_hands();
        let n = hands.len();
        // the index of one best hand
        let mut top: usize = 0;
        let mut i: usize = 1;
        while i < n
            invariant
                n == hands@.len(),
                n > 0,
                0 <= top < n,
                1 <= i <= n,
                top < i,
                forall|k: int| 0 <= k < i ==> !stronger(#[trigger] hands@[k].strength(), hands@[top as int].strength()),
            decreases n - i,
        {
            if hands[i].beats(&hands[top]) {
                top = i;
            }
            i = i + 1;
        }
        let top_level = hands[top].level;
        let top_score = hands[top].score;
        let ghost all = hands@;
        let mut hands = hands;
        let mut r: Vec<(usize, Hand)> = Vec::new();
        let mut j: usize = 0;
        while j < n
            invariant
                n == all.len(),
                0 <= j <= n,
                0 <= top < n,
                hands@ == all.skip(j as int),
                top_level == all[top as int].level && top_score == all[top as int].score,
                forall|k: int| 0 <= k < r@.len() ==> 0 <= (#[trigger] r@[k]).0 < j,
                forall|k: int|
                    0 <= k < r@.len() ==> (#[trigger] r@[k]).1 == all[r@[k].0 as int]
                        && all[r@[k].0 as int].strength() == all[top as int].strength(),
                forall|k: int, l: int| 0 <= k < l < r@.len() ==> (#[trigger] r@[k]).0 < (#[trigger] r@[l]).0,
                forall|i: int|
                    0 <= i < j && #[trigger] all[i].strength() == all[top as int].strength() ==> exists|k: int|
                        0 <= k < r@.len() && (#[trigger] r@[k]).0 == i,
            decreases n - j,
        {
            let h = hands.remove(0);
            assert(h == all[j as int]);
            assert(hands@ =~= all.skip(j + 1));
            let ghost r_before = r@;
            if h.level == top_level && h.score == top_score {
                r.push((j, h));
                assert forall|i: int|
                    0 <= i < j + 1 && #[trigger] all[i].strength() == all[top as int].strength() implies exists|k: int|
                        0 <= k < r@.len() && (#[trigger] r@[k]).0 == i by {
                    if i == j {
                        assert(r@[r@.len() - 1].0 == i);
                    } else {
                        let k = choose|k: int| 0 <= k < r_before.len() && (#[trigger] r_before[k]).0 == i;
                        assert(r@[k] == r_before[k]);
                    }
                }
            }
            j = j + 1;
        }
        proof {
            assert forall|k: int| 0 <= k < n implies (#[trigger] all[k]).strength() == self.player_strength(k) by {}
            assert forall|i: int| #[trigger] self.is_winner(i) implies exists|k: int| 0 <= k < r@.len() && (#[trigger] r@[k]).0 == i by {
                assert(!stronger(self.player_strength(top as int), self.player_strength(i)));
                assert(!stronger(all[i].strength(), all[top as int].strength()));
                assert(all[i].strength() == all[top as int].strength());
            }
            assert forall|k: int| 0 <= k < r@.len() implies self.is_winner((#[trigger] r@[k]).0 as int) by {
                let w = r@[k].0 as int;
                assert forall|j2: int| 0 <= j2 < self.holes().len() implies !stronger(#[trigger] self.player_strength(j2), self.player_strength(w)) by {
                    assert(!stronger(all[j2].strength(), all[top as int].strength()));
                }
            }
            // the best hand found first is among the winners, so there is one
            let k = choose|k: int| 0 <= k < r@.len() && (#[trigger] r@[k]).0 == top;
        }
        r
    }
}


/// The sum of a sequence of counts.
pub open spec fn total(s: Seq<u64>) -> int
    decreases s.len(),
{
    if s.len() == 0 {
        0
    } else {
        total(s.drop_last()) + s.last()
    }
}

proof fn lemma_total_update(s: Seq<u64>, i: int, v: u64)
    requires
        0 <= i < s.len(),
    ensures
        total(s.update(i, v)) == total(s) - s[i] + v,
        s[i] <= total(s),
    decreases s.len(),
{
    let t = s.update(i, v);
    if i < s.len() - 1 {
        assert(t.drop_last() =~= s.drop_last().update(i, v));
        lemma_total_update(s.drop_last(), i, v);
        lemma_total_nonnegative(s.drop_last());
    } else {
        assert(t.drop_last() =~= s.drop_last());
        lemma_total_nonnegative(s.drop_last());
    }
}

proof fn lemma_total_nonnegative(s: Seq<u64>)
    ensures
        total(s) >= 0,
    decreases s.len(),
{
    if s.len() > 0 {
        lemma_total_nonnegative(s.drop_last());
    }
}

/// The outcome counts of a simulation: wins for each player, trials that no
/// single player won, and trials run.
pub struct Tally {
    pub wins: Vec<u64>,
    pub draws: u64,
    pub trials: u64,
}

impl Tally {
    /// Every trial counted once: as one player's win, or as a draw.
    pub open spec fn wf(&self) -> bool {
        total(self.wins@) + self.draws == self.trials
    }

    /// A tally for `players` players with nothing counted yet.
    pub fn new(players: usize) -> (t: Tally)
        ensures
            t.wf(),
            t.trials == 0,
            t.draws == 0,
            t.wins@ == Seq::new(players as nat, |i: int| 0u64),
    {
        let mut wins: Vec<u64> = Vec::new();
        let mut i: usize = 0;
        while i < players
            invariant
                0 <= i <= players,
                wins@ == Seq::new(i as nat, |k: int| 0u64),
                total(wins@) == 0,
            decreases players - i,
        {
            let ghost before = wins@;
            wins.push(0);
            assert(wins@.drop_last() =~= before);
            i = i + 1;
            assert(wins@ =~= Seq::new(i as nat, |k: int| 0u64));
        }
        Tally { wins, draws: 0, trials: 0 }
    }

    /// Counts one trial: a win for its sole winner, if it has one, else a draw.
    pub fn record_outcome(&mut self, winner: Option<usize>)
        requires
            old(self).wf(),
            old(self).trials < u64::MAX,
            winner is Some ==> winner.unwrap() < old(self).wins@.len(),
        ensures
            final(self).wf(),
            final(self).trials == old(self).trials + 1,
            winner is Some ==> final(self).wins@ == old(self).wins@.update(
                winner.unwrap() as int,
                (old(self).wins@[winner.unwrap() as int] + 1) as u64,
            ) && final(self).draws == old(self).draws,
            winner is None ==> final(self).wins@ == old(self).wins@ && final(self).draws
                == old(self).draws + 1,
    {
        if let Some(w) = winner {
            proof {
                lemma_total_update(self.wins@, w as int, (self.wins@[w as int] + 1) as u64);
                lemma_total_nonnegative(self.wins@);
            }
            let won = self.wins[w] + 1;
            self.wins.set(w, won);
        } else {
            proof {
                lemma_total_nonnegative(self.wins@);
            }
            self.draws = self.draws + 1;
        }
        self.trials = self.trials + 1;
    }
}

/// The strength of player `i`'s best hand when the unknown cards are dealt from `p`.
pub open spec fn seat_strength(spec: GameSpec, p: Seq<Card>, i: int) -> (int, int) {
    best_strength(player_cards(holes_from(spec, p)[i], board_from(spec, p)))
}

/// Player `i` alone holds the best hand when the unknown cards are dealt from `p`.
pub open spec fn sole_winner(spec: GameSpec, p: Seq<Card>, i: int) -> bool {
    &&& 0 <= i < spec.hole_cards@.len()
    &&& forall|j: int|
        0 <= j < spec.hole_cards@.len() && j != i ==> stronger(
            seat_strength(spec, p, i),
            #[trigger] seat_strength(spec, p, j),
        )
}

/// Some player alone holds the best hand when the unknown cards are dealt from `p`.
pub open spec fn has_sole_winner(spec: GameSpec, p: Seq<Card>) -> bool {
    exists|i: int| #[trigger] sole_winner(spec, p, i)
}

/// Of the deals `deals`, how many player `i` alone wins.
pub open spec fn sole_wins(spec: GameSpec, deals: Seq<Seq<Card>>, i: int) -> int
    decreases deals.len(),
{
    if deals.len() == 0 {
        0
    } else {
        sole_wins(spec, deals.drop_last(), i) + one_if(sole_winner(spec, deals.last(), i))
    }
}

/// Of the deals `deals`, how many no single player wins.
pub open spec fn no_sole_winner(spec: GameSpec, deals: Seq<Seq<Card>>) -> int
    decreases deals.len(),
{
    if deals.len() == 0 {
        0
    } else {
        no_sole_winner(spec, deals.drop_last()) + one_if(!has_sole_winner(spec, deals.last()))
    }
}

/// Plays one trial of a situation with its unknown cards dealt from `order`:
/// the sole winner, if there is one.
pub fn run_trial(spec: &GameSpec, order: Vec<Card>) -> (r: Option<usize>)
    requires
        spec.hole_cards@.len() > 0,
        spec.setup_error() is None,
        completes(*spec, order@),
    ensures
        r is Some ==> sole_winner(*spec, order@, r.unwrap() as int),
        r is None ==> !has_sole_winner(*spec, order@),
{
    let ghost p = order@;
    let mut game = Game::deal_game(spec, Deck::from_cards(order));
    game.deal_down_to_river();
    let winners = game.get_winning_players_and_hands();
    proof {
        assert(game.board_cards() =~= board_from(*spec, p));
        assert forall|i: int| 0 <= i < spec.hole_cards@.len() implies #[trigger] game.player_strength(i)
            == seat_strength(*spec, p, i) by {}
    }
    if winners.len() == 1 {
        let w = winners[0].0;
        proof {
            let n = spec.hole_cards@.len();
            assert(game.is_winner(w as int));
            assert forall|j: int| 0 <= j < n && j != w implies stronger(
                seat_strength(*spec, p, w as int),
                #[trigger] seat_strength(*spec, p, j),
            ) by {
                assert(!stronger(game.player_strength(j), game.player_strength(w as int)));
                if game.player_strength(j) == game.player_strength(w as int) {
                    assert forall|k: int| 0 <= k < n implies !stronger(
                        #[trigger] game.player_strength(k),
                        game.player_strength(j),
                    ) by {
                        assert(!stronger(game.player_strength(k), game.player_strength(w as int)));
                    }
                    assert(game.is_winner(j));
                    let k = choose|k: int| 0 <= k < winners@.len() && (#[trigger] winners@[k]).0 == j;
                }
            }
        }
        Some(w)
    } else {
        proof {
            let a = winners@[0].0 as int;
            let b = winners@[1].0 as int;
            assert(game.is_winner(a) && game.is_winner(b) && a < b);
            if has_sole_winner(*spec, p) {
                let i = choose|i: int| #[trigger] sole_winner(*spec, p, i);
                if i != a {
                    assert(stronger(seat_strength(*spec, p, i), seat_strength(*spec, p, a)));
                    assert(!stronger(game.player_strength(i), game.player_strength(a)));
                } else {
                    assert(stronger(seat_strength(*spec, p, i), seat_strength(*spec, p, b)));
                    assert(!stronger(game.player_strength(i), game.player_strength(b)));
                }
            }
        }
        None
    }
}

/// Why a simulation cannot run.
#[derive(Debug, Clone, Copy, PartialEq, Eq, Structural)]
pub enum SimulationError {
    /// The situation has no players.
    NoPlayers,
    /// The situation cannot be set up.
    Setup(SetupError),
}

/// Runs `trials` random completions of a situation and counts who wins each.
/// A situation that cannot be set up fails before any trial runs. Each trial
/// deals the unknown cards from a random order of them; the tally counts, for
/// each player, the trials that player alone won, and as draws the rest.
pub fn simulate(spec: &GameSpec, trials: u64) -> (r: Result<Tally, SimulationError>)
    ensures
        spec.hole_cards@.len() == 0 ==> r == Err::<Tally, SimulationError>(SimulationError::NoPlayers),
        spec.hole_cards@.len() > 0 && spec.setup_error() is Some ==> r == Err::<Tally, SimulationError>(
            SimulationError::Setup(spec.setup_error().unwrap()),
        ),
        spec.hole_cards@.len() > 0 && spec.setup_error() is None ==> r is Ok && r.unwrap().wf()
            && r.unwrap().trials == trials && r.unwrap().wins@.len() == spec.hole_cards@.len()
            && exists|deals: Seq<Seq<Card>>| #[trigger] tallies(*spec, deals, r.unwrap()),
{
    if spec.hole_cards.len() == 0 {
        return Err(SimulationError::NoPlayers);
    }
    if let Err(e) = Game::from_spec(spec) {
        return Err(SimulationError::Setup(e));
    }
    let known = collect_known(spec);
    let mut tally = Tally::new(spec.hole_cards.len());
    let ghost mut deals: Seq<Seq<Card>> = Seq::empty();
    let mut t: u64 = 0;
    while t < trials
        invariant
            spec.hole_cards@.len() > 0,
            spec.setup_error() is None,
            known@ == spec.known_cards(),
            tally.wf(),
            tally.trials == t,
            t <= trials,
            tally.wins@.len() == spec.hole_cards@.len(),
            tallies(*spec, deals, tally),
        decreases trials - t,
    {
        let mut deck = Deck::new();
        let removed = take_out_known(&mut deck, &known);
        let ghost left = deck@;
        deck.shuffle();
        let order = deck.into_cards();
        let ghost o = order@;
        proof {
            assert(removed is Ok);
            assert forall|v: Card| #[trigger] o.to_multiset().add(spec.known_cards().to_multiset()).count(v)
                == full_deck().to_multiset().count(v) by {
                assert(left.to_multiset().add(known@.to_multiset()).count(v) == full_deck().to_multiset().count(v));
            }
            assert(o.to_multiset().add(spec.known_cards().to_multiset()) =~= full_deck().to_multiset());
        }
        let winner = run_trial(spec, order);
        let ghost before = tally;
        tally.record_outcome(winner);
        proof {
            let d2 = deals.push(o);
            assert(d2.drop_last() =~= deals);
            assert forall|i: int| 0 <= i < spec.hole_cards@.len() implies #[trigger] tally.wins@[i]
                == sole_wins(*spec, d2, i) by {
                assert(d2.last() == o);
                assert(sole_wins(*spec, d2, i) == sole_wins(*spec, deals, i) + one_if(
                    sole_winner(*spec, o, i),
                ));
                assert(before.wins@[i] == sole_wins(*spec, deals, i));
                lemma_total_update(before.wins@, i, 0);
                if winner is Some && winner.unwrap() != i {
                    if sole_winner(*spec, o, i) {
                        assert(stronger(
                            seat_strength(*spec, o, i),
                            seat_strength(*spec, o, winner.unwrap() as int),
                        ));
                        assert(stronger(
                            seat_strength(*spec, o, winner.unwrap() as int),
                            seat_strength(*spec, o, i),
                        ));
                    }
                }
                if winner is None {
                    assert(!sole_winner(*spec, o, i));
                }
            }
            if winner is Some {
                assert(has_sole_winner(*spec, o));
            }
            assert(no_sole_winner(*spec, d2) == no_sole_winner(*spec, deals) + one_if(
                !has_sole_winner(*spec, o),
            ));
            deals = d2;
        }
        t = t + 1;
    }
    Ok(tally)
}

/// `tally` counts the deals `deals`, one trial each: every deal is an order
/// of the unknown cards, each player's wins are the deals that player alone
/// wins, and the draws are the deals with no sole winner.
pub open spec fn tallies(spec: GameSpec, deals: Seq<Seq<Card>>, tally: Tally) -> bool {
    &&& deals.len() == tally.trials
    &&& forall|k: int| 0 <= k < deals.len() ==> completes(spec, #[trigger] deals[k])
    &&& forall|i: int|
        0 <= i < spec.hole_cards@.len() ==> #[trigger] tally.wins@[i] == sole_wins(spec, deals, i)
    &&& tally.draws == no_sole_winner(spec, deals)
}

proof fn lemma_first_problem_valid(s: Seq<Card>)
    requires
        forall|i: int| 0 <= i < s.len() ==> #[trigger] s[i].is_valid(),
    ensures
        first_problem(s) is None || first_problem(s) == Some(SetupError::DuplicateCard),
    decreases s.len(),
{
    if s.len() > 0 {
        let t = s.drop_last();
        assert forall|i: int| 0 <= i < t.len() implies #[trigger] t[i].is_valid() by {
            assert(t[i] == s[i]);
        }
        lemma_first_problem_valid(t);
    }
}

/// A situation that gives some card twice cannot be set up. When its cards
/// are all valid and its board and player counts fit, the reason given is
/// the repeated card.
pub proof fn lemma_duplicate_fails_setup(spec: GameSpec)
    requires
        !spec.known_cards().no_duplicates(),
    ensures
        spec.setup_error() is Some,
        spec.board@.len() <= 5 && spec.hole_cards@.len() <= MAX_PLAYERS && (forall|i: int|
            0 <= i < spec.known_cards().len() ==> #[trigger] spec.known_cards()[i].is_valid())
            ==> spec.setup_error() == Some(SetupError::DuplicateCard),
{
    if first_problem(spec.known_cards()) is None {
        lemma_no_problem(spec.known_cards());
    }
    if forall|i: int|
        0 <= i < spec.known_cards().len() ==> #[trigger] spec.known_cards()[i].is_valid() {
        lemma_first_problem_valid(spec.known_cards());
    }
}

} // verus!

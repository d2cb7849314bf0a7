//! Five-card hand classification and scoring.
use vstd::prelude::*;
use vstd::string::*;
use crate::card::{card_text, Card};

verus! {

/// The nine classes of five-card hands, strongest first.
#[derive(Debug, Clone, Copy, PartialEq, Eq, Structural)]
pub enum HandType {
    StraightFlush,
    Quads,
    FullHouse,
    Flush,
    Straight,
    ThreeOfAKind,
    TwoPair,
    Pair,
    HighCard,
}

/// The strength of a class: 9 for a straight flush down to 1 for high card.
pub open spec fn level_of(t: HandType) -> int {
    match t {
        HandType::StraightFlush => 9,
        HandType::Quads => 8,
        HandType::FullHouse => 7,
        HandType::Flush => 6,
        HandType::Straight => 5,
        HandType::ThreeOfAKind => 4,
        HandType::TwoPair => 3,
        HandType::Pair => 2,
        HandType::HighCard => 1,
    }
}

/// The ranks of five cards, in the order the cards are given.
pub open spec fn ranks(cards: Seq<Card>) -> Seq<u8> {
    seq![cards[0].rank, cards[1].rank, cards[2].rank, cards[3].rank, cards[4].rank]
}

/// Five valid cards, not all of one rank.
pub open spec fn is_five_card_hand(cards: Seq<Card>) -> bool {
    &&& cards.len() == 5
    &&& forall|i: int| 0 <= i < 5 ==> #[trigger] cards[i].is_valid()
    &&& matching_pairs(ranks(cards)) != 10
}

/// One where `b` holds, else zero.
pub open spec fn one_if(b: bool) -> int {
    if b {
        1
    } else {
        0
    }
}

/// How many of the five ranks `a` to `e` equal `r`.
pub open spec fn count_among(r: u8, a: u8, b: u8, c: u8, d: u8, e: u8) -> int {
    one_if(a == r) + one_if(b == r) + one_if(c == r) + one_if(d == r) + one_if(e == r)
}

/// How many of the five ranks equal `r`.
pub open spec fn copies(s: Seq<u8>, r: u8) -> int {
    count_among(r, s[0], s[1], s[2], s[3], s[4])
}

/// How many of the ten pairs of positions hold equal ranks: 0 for five
/// different ranks, 1 for a pair, 2 for two pair, 3 for three of a kind,
/// 4 for a full house, 6 for four of a kind.
pub open spec fn matching_pairs(s: Seq<u8>) -> int {
    one_if(s[0] == s[1]) + one_if(s[0] == s[2]) + one_if(s[0] == s[3]) + one_if(s[0] == s[4])
        + one_if(s[1] == s[2]) + one_if(s[1] == s[3]) + one_if(s[1] == s[4]) + one_if(
        s[2] == s[3],
    ) + one_if(s[2] == s[4]) + one_if(s[3] == s[4])
}

/// All five cards share the first card's suit.
pub open spec fn same_suit(cards: Seq<Card>) -> bool {
    &&& cards[1].suit == cards[0].suit
    &&& cards[2].suit == cards[0].suit
    &&& cards[3].suit == cards[0].suit
    &&& cards[4].suit == cards[0].suit
}

/// The highest of five ranks.
pub open spec fn max5(s: Seq<u8>) -> int {
    vstd::math::max(
        vstd::math::max(vstd::math::max(s[0] as int, s[1] as int), vstd::math::max(s[2] as int, s[3] as int)),
        s[4] as int,
    )
}

/// The lowest of five ranks.
pub open spec fn min5(s: Seq<u8>) -> int {
    vstd::math::min(
        vstd::math::min(vstd::math::min(s[0] as int, s[1] as int), vstd::math::min(s[2] as int, s[3] as int)),
        s[4] as int,
    )
}

/// Every rank is an Ace or at most a Five.
pub open spec fn ace_to_five(s: Seq<u8>) -> bool {
    &&& (s[0] == 14 || s[0] <= 5)
    &&& (s[1] == 14 || s[1] <= 5)
    &&& (s[2] == 14 || s[2] <= 5)
    &&& (s[3] == 14 || s[3] <= 5)
    &&& (s[4] == 14 || s[4] <= 5)
}

/// The score of five ranks as a straight: five different ranks that are
/// A-2-3-4-5 score 1, five consecutive ranks score their lowest rank.
pub open spec fn straight_value(s: Seq<u8>) -> Option<int> {
    if matching_pairs(s) != 0 {
        None
    } else if ace_to_five(s) {
        Some(1)
    } else if max5(s) - min5(s) == 4 {
        Some(min5(s))
    } else {
        None
    }
}

/// Rank `x` goes ahead of (or level with) rank `y` when it has more copies,
/// or as many copies and is at least as high.
pub open spec fn goes_ahead(s: Seq<u8>, x: u8, y: u8) -> bool {
    copies(s, x) > copies(s, y) || (copies(s, x) == copies(s, y) && x >= y)
}

/// `o` holds the ranks of `s`, ordered by copies and then rank, highest first.
pub open spec fn is_arrangement(s: Seq<u8>, o: Seq<u8>) -> bool {
    &&& o.len() == 5
    &&& forall|r: u8| #[trigger] copies(o, r) == copies(s, r)
    &&& forall|i: int, j: int| 0 <= i < j < 5 ==> goes_ahead(s, #[trigger] o[i], #[trigger] o[j])
}

/// The ranks of `s` ordered by copies and then rank, highest first.
pub open spec fn arrangement(s: Seq<u8>) -> Seq<u8> {
    choose|o: Seq<u8>| is_arrangement(s, o)
}

/// Five ranks read as the digits of a base-16 number, the first the most significant.
pub open spec fn place_value(o: Seq<u8>) -> int {
    o[0] * 65536 + o[1] * 4096 + o[2] * 256 + o[3] * 16 + o[4]
}

/// The score that orders hands of one class other than the straights:
/// the arranged ranks read in base 16.
pub open spec fn group_score(s: Seq<u8>) -> int {
    place_value(arrangement(s))
}

/// The group sizes of a hand, largest first, told by its number of matching pairs.
pub open spec fn group_sizes_of(pairs: int) -> Seq<u8> {
    if pairs == 6 {
        seq![4u8, 1u8]
    } else if pairs == 4 {
        seq![3u8, 2u8]
    } else if pairs == 3 {
        seq![3u8, 1u8, 1u8]
    } else if pairs == 2 {
        seq![2u8, 2u8, 1u8]
    } else if pairs == 1 {
        seq![2u8, 1u8, 1u8, 1u8]
    } else if pairs == 0 {
        seq![1u8, 1u8, 1u8, 1u8, 1u8]
    } else {
        seq![5u8]
    }
}

/// The score of five cards as a hand of class `t`, where they fit that class.
pub open spec fn fit_score(cards: Seq<Card>, t: HandType) -> Option<int> {
    let s = ranks(cards);
    let pairs = matching_pairs(s);
    match t {
        HandType::StraightFlush => if same_suit(cards) {
            straight_value(s)
        } else {
            None
        },
        HandType::Quads => if pairs == 6 {
            Some(group_score(s))
        } else {
            None
        },
        HandType::FullHouse => if pairs == 4 {
            Some(group_score(s))
        } else {
            None
        },
        HandType::Flush => if same_suit(cards) {
            Some(group_score(s))
        } else {
            None
        },
        HandType::Straight => straight_value(s),
        HandType::ThreeOfAKind => if pairs == 3 {
            Some(group_score(s))
        } else {
            None
        },
        HandType::TwoPair => if pairs == 2 {
            Some(group_score(s))
        } else {
            None
        },
        HandType::Pair => if pairs == 1 {
            Some(group_score(s))
        } else {
            None
        },
        HandType::HighCard => if pairs == 0 {
            Some(group_score(s))
        } else {
            None
        },
    }
}

/// The class and score of five cards: the strongest class that they fit.
pub open spec fn evaluate(cards: Seq<Card>) -> (HandType, int) {
    if fit_score(cards, HandType::StraightFlush).is_some() {
        (HandType::StraightFlush, fit_score(cards, HandType::StraightFlush).unwrap())
    } else if fit_score(cards, HandType::Quads).is_some() {
        (HandType::Quads, fit_score(cards, HandType::Quads).unwrap())
    } else if fit_score(cards, HandType::FullHouse).is_some() {
        (HandType::FullHouse, fit_score(cards, HandType::FullHouse).unwrap())
    } else if fit_score(cards, HandType::Flush).is_some() {
        (HandType::Flush, fit_score(cards, HandType::Flush).unwrap())
    } else if fit_score(cards, HandType::Straight).is_some() {
        (HandType::Straight, fit_score(cards, HandType::Straight).unwrap())
    } else if fit_score(cards, HandType::ThreeOfAKind).is_some() {
        (HandType::ThreeOfAKind, fit_score(cards, HandType::ThreeOfAKind).unwrap())
    } else if fit_score(cards, HandType::TwoPair).is_some() {
        (HandType::TwoPair, fit_score(cards, HandType::TwoPair).unwrap())
    } else if fit_score(cards, HandType::Pair).is_some() {
        (HandType::Pair, fit_score(cards, HandType::Pair).unwrap())
    } else {
        (HandType::HighCard, group_score(ranks(cards)))
    }
}

/// Five ranks have 0, 1, 2, 3, 4, 6 or 10 matching pairs, and never any other number.
pub proof fn lemma_matching_pairs_values(s: Seq<u8>)
    ensures
        matching_pairs(s) == 0 || matching_pairs(s) == 1 || matching_pairs(s) == 2
            || matching_pairs(s) == 3 || matching_pairs(s) == 4 || matching_pairs(s) == 6
            || matching_pairs(s) == 10,
{
}

/// Every five-card hand fits exactly one of the six classes told by its rank
/// groups (four of a kind, full house, three of a kind, two pair, one pair,
/// high card); the class it is evaluated to is one that it fits, and it fits
/// no stronger class.
pub proof fn lemma_exactly_one_class(cards: Seq<Card>)
    requires
        is_five_card_hand(cards),
    ensures
        one_if(fit_score(cards, HandType::Quads).is_some()) + one_if(
            fit_score(cards, HandType::FullHouse).is_some(),
        ) + one_if(fit_score(cards, HandType::ThreeOfAKind).is_some()) + one_if(
            fit_score(cards, HandType::TwoPair).is_some(),
        ) + one_if(fit_score(cards, HandType::Pair).is_some()) + one_if(
            fit_score(cards, HandType::HighCard).is_some(),
        ) == 1,
        fit_score(cards, evaluate(cards).0) == Some(evaluate(cards).1),
        forall|t: HandType|
            #[trigger] fit_score(cards, t).is_some() ==> level_of(t) <= level_of(evaluate(cards).0),
{
    lemma_matching_pairs_values(ranks(cards));
    assert forall|t: HandType| #[trigger]
        fit_score(cards, t).is_some() implies level_of(t) <= level_of(evaluate(cards).0) by {
        match t {
            HandType::StraightFlush => {},
            HandType::Quads => {},
            HandType::FullHouse => {},
            HandType::Flush => {},
            HandType::Straight => {},
            HandType::ThreeOfAKind => {},
            HandType::TwoPair => {},
            HandType::Pair => {},
            HandType::HighCard => {},
        }
    }
}

/// Five cards belong to class `t`: a straight flush is a straight and a
/// flush; a flush or a straight alone is not the other; the rank groups
/// decide the remaining classes, high card only without flush or straight.
pub open spec fn in_class(cards: Seq<Card>, t: HandType) -> bool {
    let s = ranks(cards);
    let pairs = matching_pairs(s);
    let flush = same_suit(cards);
    let straight = straight_value(s) is Some;
    match t {
        HandType::StraightFlush => flush && straight,
        HandType::Quads => pairs == 6,
        HandType::FullHouse => pairs == 4,
        HandType::Flush => flush && !straight,
        HandType::Straight => straight && !flush,
        HandType::ThreeOfAKind => pairs == 3,
        HandType::TwoPair => pairs == 2,
        HandType::Pair => pairs == 1,
        HandType::HighCard => pairs == 0 && !flush && !straight,
    }
}

/// Five different valid cards belong to exactly one of the nine classes, and
/// that class is the one they are evaluated to.
pub proof fn lemma_exactly_one_of_nine(cards: Seq<Card>)
    requires
        cards.len() == 5,
        cards.no_duplicates(),
        forall|i: int| 0 <= i < 5 ==> #[trigger] cards[i].is_valid(),
    ensures
        one_if(in_class(cards, HandType::StraightFlush)) + one_if(in_class(cards, HandType::Quads))
            + one_if(in_class(cards, HandType::FullHouse)) + one_if(in_class(cards, HandType::Flush))
            + one_if(in_class(cards, HandType::Straight)) + one_if(
            in_class(cards, HandType::ThreeOfAKind),
        ) + one_if(in_class(cards, HandType::TwoPair)) + one_if(in_class(cards, HandType::Pair))
            + one_if(in_class(cards, HandType::HighCard)) == 1,
        in_class(cards, evaluate(cards).0),
{
    lemma_matching_pairs_values(ranks(cards));
    assert(cards[0] != cards[1] && cards[0] != cards[2] && cards[0] != cards[3] && cards[0] != cards[4]);
    assert(cards[1] != cards[2] && cards[1] != cards[3] && cards[1] != cards[4]);
    assert(cards[2] != cards[3] && cards[2] != cards[4] && cards[3] != cards[4]);
    if same_suit(cards) {
        // cards of one suit that are all different have different ranks
        assert(matching_pairs(ranks(cards)) == 0);
    }
}

/// Of two hands, exactly one beats the other or the two tie; and beating is transitive.
pub proof fn lemma_hand_order_total(a: &Hand, b: &Hand, c: &Hand)
    ensures
        one_if(stronger(a.strength(), b.strength())) + one_if(a.strength() == b.strength())
            + one_if(stronger(b.strength(), a.strength())) == 1,
        stronger(a.strength(), b.strength()) && stronger(b.strength(), c.strength()) ==> stronger(
            a.strength(),
            c.strength(),
        ),
{
}

proof fn lemma_goes_ahead_antisymmetric(s: Seq<u8>, x: u8, y: u8)
    requires
        goes_ahead(s, x, y),
        goes_ahead(s, y, x),
    ensures
        x == y,
{
}

proof fn lemma_arrangement_step(s: Seq<u8>, a: Seq<u8>, b: Seq<u8>, i: int)
    requires
        is_arrangement(s, a),
        is_arrangement(s, b),
        0 <= i < 5,
        forall|j: int| 0 <= j < i ==> a[j] == b[j],
    ensures
        a[i] == b[i],
{
    let x = a[i];
    let y = b[i];
    assert(copies(a, x) == copies(b, x));
    assert(copies(a, y) == copies(b, y));
    // x occurs in b at a position at or after i, so y goes ahead of it
    assert(goes_ahead(s, y, x)) by {
        assert(exists|k: int| i <= k < 5 && b[k] == x) by {
            if !(exists|k: int| i <= k < 5 && b[k] == x) {
                assert(forall|k: int| 0 <= k < 5 && i <= k ==> b[k] != x);
            }
        }
        let k = choose|k: int| i <= k < 5 && b[k] == x;
        if k > i {
            assert(goes_ahead(s, b[i], b[k]));
        }
    }
    assert(goes_ahead(s, x, y)) by {
        assert(exists|k: int| i <= k < 5 && a[k] == y) by {
            if !(exists|k: int| i <= k < 5 && a[k] == y) {
                assert(forall|k: int| 0 <= k < 5 && i <= k ==> a[k] != y);
            }
        }
        let k = choose|k: int| i <= k < 5 && a[k] == y;
        if k > i {
            assert(goes_ahead(s, a[i], a[k]));
        }
    }
    lemma_goes_ahead_antisymmetric(s, x, y);
}

proof fn lemma_arrangement_unique(s: Seq<u8>, a: Seq<u8>, b: Seq<u8>)
    requires
        is_arrangement(s, a),
        is_arrangement(s, b),
    ensures
        a == b,
{
    lemma_arrangement_step(s, a, b, 0);
    lemma_arrangement_step(s, a, b, 1);
    lemma_arrangement_step(s, a, b, 2);
    lemma_arrangement_step(s, a, b, 3);
    lemma_arrangement_step(s, a, b, 4);
    assert(a =~= b);
}

/// A hand of five cards with its class, its level (9 for a straight flush
/// down to 1 for high card) and its score within the class.
pub struct Hand {
    pub cards: Vec<Card>,
    pub hand_type: HandType,
    pub level: u8,
    pub score: u64,
}

impl Hand {
    /// The hand's fields agree with what its five cards evaluate to.
    pub open spec fn wf(&self) -> bool {
        &&& is_five_card_hand(self.cards@)
        &&& evaluate(self.cards@) == (self.hand_type, self.score as int)
        &&& self.level as int == level_of(self.hand_type)
    }

    /// The hand's strength as a pair ordered lexicographically: level, then score.
    pub open spec fn strength(&self) -> (int, int) {
        (self.level as int, self.score as int)
    }
}

/// Cards as text: each card's token followed by a space.
pub open spec fn cards_line(cards: Seq<Card>) -> Seq<char>
    decreases cards.len(),
{
    if cards.len() == 0 {
        Seq::empty()
    } else {
        cards_line(cards.drop_last()) + card_text(cards.last()) + seq![' ']
    }
}

/// Pairs `(level, score)` compared first by level, then by score.
pub open spec fn stronger(a: (int, int), b: (int, int)) -> bool {
    a.0 > b.0 || (a.0 == b.0 && a.1 > b.1)
}

/// The strength of five cards: the level of their class, then their score.
pub open spec fn strength_of(cards: Seq<Card>) -> (int, int) {
    (level_of(evaluate(cards).0), evaluate(cards).1)
}

impl PartialEq for Hand {
    fn eq(&self, other: &Hand) -> (r: bool) {
        self.level == other.level && self.score == other.score
    }
}

impl vstd::std_specs::cmp::PartialEqSpecImpl for Hand {
    open spec fn obeys_eq_spec() -> bool {
        true
    }

    open spec fn eq_spec(&self, other: &Hand) -> bool {
        self.strength() == other.strength()
    }
}

impl PartialOrd for Hand {
    fn partial_cmp(&self, other: &Hand) -> (r: Option<core::cmp::Ordering>) {
        if self.level > other.level || (self.level == other.level && self.score > other.score) {
            Some(core::cmp::Ordering::Greater)
        } else if self.level == other.level && self.score == other.score {
            Some(core::cmp::Ordering::Equal)
        } else {
            Some(core::cmp::Ordering::Less)
        }
    }
}

impl vstd::std_specs::cmp::PartialOrdSpecImpl for Hand {
    open spec fn obeys_partial_cmp_spec() -> bool {
        true
    }

    open spec fn partial_cmp_spec(&self, other: &Hand) -> Option<core::cmp::Ordering> {
        if stronger(self.strength(), other.strength()) {
            Some(core::cmp::Ordering::Greater)
        } else if self.strength() == other.strength() {
            Some(core::cmp::Ordering::Equal)
        } else {
            Some(core::cmp::Ordering::Less)
        }
    }
}

impl Hand {
    /// Evaluates five cards into a hand.
    pub fn new(cards: Vec<Card>) -> (h: Hand)
        requires
            is_five_card_hand(cards@),
        ensures
            h.wf(),
            h.cards@ == cards@,
            h.strength() == strength_of(cards@),
    {
        let (hand_type, level, score) = get_hand_type_level_and_score(&cards);
        Hand { cards, hand_type, level, score }
    }

    /// The hand's cards as text, each token followed by a space.
    pub fn cards_text(&self) -> (r: String)
        requires
            forall|i: int| 0 <= i < self.cards@.len() ==> #[trigger] self.cards@[i].is_valid(),
        ensures
            r@ == cards_line(self.cards@),
    {
        let mut text = String::new();
        let mut i: usize = 0;
        while i < self.cards.len()
            invariant
                forall|k: int| 0 <= k < self.cards@.len() ==> #[trigger] self.cards@[k].is_valid(),
                0 <= i <= self.cards@.len(),
                text@ == cards_line(self.cards@.take(i as int)),
            decreases self.cards@.len() - i,
        {
            let c = self.cards[i];
            assert(self.cards@[i as int].is_valid());
            let token = c.to_string();
            text.append(token.as_str());
            text.append(" ");
            assert(self.cards@.take(i + 1).drop_last() =~= self.cards@.take(i as int));
            assert(self.cards@.take(i + 1).last() == c);
            proof {
                reveal_strlit(" ");
            }
            assert(" "@ =~= seq![' ']);
            assert(text@ =~= cards_line(self.cards@.take(i + 1)));
            i = i + 1;
        }
        assert(self.cards@.take(i as int) =~= self.cards@);
        text
    }

    /// Whether this hand beats `other`.
    pub fn beats(&self, other: &Hand) -> (r: bool)
        ensures
            r == stronger(self.strength(), other.strength()),
    {
        self.level > other.level || (self.level == other.level && self.score > other.score)
    }

    /// Whether this hand ties with `other`.
    pub fn ties(&self, other: &Hand) -> (r: bool)
        ensures
            r == (self.strength() == other.strength()),
    {
        self.level == other.level && self.score == other.score
    }
}

/// The class, level and score of five cards, trying the classes from the strongest down.
pub fn get_hand_type_level_and_score(cards: &Vec<Card>) -> (r: (HandType, u8, u64))
    requires
        is_five_card_hand(cards@),
    ensures
        r.0 == evaluate(cards@).0,
        r.2 as int == evaluate(cards@).1,
        r.1 as int == level_of(r.0),
{
    if let Some(score) = straight_flush_checker(cards) {
        return (HandType::StraightFlush, 9, score);
    }
    if let Some(score) = quads_checker(cards) {
        return (HandType::Quads, 8, score);
    }
    if let Some(score) = full_house_checker(cards) {
        return (HandType::FullHouse, 7, score);
    }
    if let Some(score) = flush_checker(cards) {
        return (HandType::Flush, 6, score);
    }
    if let Some(score) = straight_checker(cards) {
        return (HandType::Straight, 5, score);
    }
    if let Some(score) = three_of_a_kind_checker(cards) {
        return (HandType::ThreeOfAKind, 4, score);
    }
    if let Some(score) = two_pair_checker(cards) {
        return (HandType::TwoPair, 3, score);
    }
    if let Some(score) = pair_checker(cards) {
        return (HandType::Pair, 2, score);
    }
    proof {
        // with no pair, trips, full house or quads, the five ranks all differ
        lemma_matching_pairs_values(ranks(cards@));
    }
    let score = high_card_checker(cards).unwrap();
    (HandType::HighCard, 1, score)
}

/// An optional integer score as the `fit_score` of a class.
pub open spec fn scored(r: Option<u64>, v: Option<int>) -> bool {
    match r {
        Some(x) => v == Some(x as int),
        None => v.is_none(),
    }
}

fn rank_array(cards: &Vec<Card>) -> (r: [u8; 5])
    requires
        is_five_card_hand(cards@),
    ensures
        r@ == ranks(cards@),
        forall|i: int| 0 <= i < 5 ==> 2 <= #[trigger] r@[i] <= 14,
{
    assert(cards@[0].is_valid() && cards@[1].is_valid() && cards@[2].is_valid());
    assert(cards@[3].is_valid() && cards@[4].is_valid());
    let r = [cards[0].rank, cards[1].rank, cards[2].rank, cards[3].rank, cards[4].rank];
    assert(r@ =~= ranks(cards@));
    r
}

fn count_rank(s: &[u8; 5], r: u8) -> (n: u8)
    ensures
        n as int == copies(s@, r),
{
    let mut n: u8 = 0;
    if s[0] == r {
        n = n + 1;
    }
    if s[1] == r {
        n = n + 1;
    }
    if s[2] == r {
        n = n + 1;
    }
    if s[3] == r {
        n = n + 1;
    }
    if s[4] == r {
        n = n + 1;
    }
    n
}

fn count_matching_pairs(s: &[u8; 5]) -> (n: u8)
    ensures
        n as int == matching_pairs(s@),
{
    let mut n: u8 = 0;
    if s[0] == s[1] {
        n = n + 1;
    }
    if s[0] == s[2] {
        n = n + 1;
    }
    if s[0] == s[3] {
        n = n + 1;
    }
    if s[0] == s[4] {
        n = n + 1;
    }
    if s[1] == s[2] {
        n = n + 1;
    }
    if s[1] == s[3] {
        n = n + 1;
    }
    if s[1] == s[4] {
        n = n + 1;
    }
    if s[2] == s[3] {
        n = n + 1;
    }
    if s[2] == s[4] {
        n = n + 1;
    }
    if s[3] == s[4] {
        n = n + 1;
    }
    n
}

/// A rank paired with its key: sixteen times its copies in `s`, plus itself.
spec fn keyed(s: Seq<u8>, x: (u8, u8)) -> bool {
    x.0 as int == copies(s, x.1) * 16 + x.1 && 2 <= x.1 <= 14
}

/// Puts the pair with the larger key first.
fn order2(a: (u8, u8), b: (u8, u8)) -> (r: ((u8, u8), (u8, u8)))
    ensures
        (r.0 == a && r.1 == b) || (r.0 == b && r.1 == a),
        r.0.0 >= r.1.0,
{
    if a.0 >= b.0 {
        (a, b)
    } else {
        (b, a)
    }
}

/// Five keyed ranks.
type Keyed5 = ((u8, u8), (u8, u8), (u8, u8), (u8, u8), (u8, u8));

/// The same ranks, counted with their copies, in `x` and in `y`.
spec fn same_ranks(x: Keyed5, y: Keyed5) -> bool {
    forall|r: u8|
        #[trigger] count_among(r, x.0.1, x.1.1, x.2.1, x.3.1, x.4.1) == count_among(
            r,
            y.0.1,
            y.1.1,
            y.2.1,
            y.3.1,
            y.4.1,
        )
}

spec fn all_keyed(s: Seq<u8>, x: Keyed5) -> bool {
    keyed(s, x.0) && keyed(s, x.1) && keyed(s, x.2) && keyed(s, x.3) && keyed(s, x.4)
}

/// Moves the key at position 1 back into the sorted run before it.
fn insert_second(x: Keyed5, Ghost(s): Ghost<Seq<u8>>) -> (r: Keyed5)
    requires
        all_keyed(s, x),
    ensures
        all_keyed(s, r),
        same_ranks(r, x),
        r.0.0 >= r.1.0,
{
    let (x0, x1, x2, x3, x4) = x;
    let (x0, x1) = order2(x0, x1);
    assert(same_ranks((x0, x1, x2, x3, x4), x) && all_keyed(s, (x0, x1, x2, x3, x4)));
    (x0, x1, x2, x3, x4)
}

/// Moves the key at position 2 back into the sorted run before it.
fn insert_third(x: Keyed5, Ghost(s): Ghost<Seq<u8>>) -> (r: Keyed5)
    requires
        all_keyed(s, x),
        x.0.0 >= x.1.0,
    ensures
        all_keyed(s, r),
        same_ranks(r, x),
        r.0.0 >= r.1.0 >= r.2.0,
{
    let (x0, x1, x2, x3, x4) = x;
    let (x1, x2) = order2(x1, x2);
    assert(same_ranks((x0, x1, x2, x3, x4), x) && all_keyed(s, (x0, x1, x2, x3, x4)));
    let (x0, x1) = order2(x0, x1);
    assert(same_ranks((x0, x1, x2, x3, x4), x) && all_keyed(s, (x0, x1, x2, x3, x4)));
    (x0, x1, x2, x3, x4)
}

/// Moves the key at position 3 back into the sorted run before it.
#[verifier::rlimit(50)]
fn insert_fourth(x: Keyed5, Ghost(s): Ghost<Seq<u8>>) -> (r: Keyed5)
    requires
        all_keyed(s, x),
        x.0.0 >= x.1.0 >= x.2.0,
    ensures
        all_keyed(s, r),
        same_ranks(r, x),
        r.0.0 >= r.1.0 >= r.2.0 >= r.3.0,
{
    let (x0, x1, x2, x3, x4) = x;
    let (x2, x3) = order2(x2, x3);
    assert(same_ranks((x0, x1, x2, x3, x4), x) && all_keyed(s, (x0, x1, x2, x3, x4)));
    let (x1, x2) = order2(x1, x2);
    assert(same_ranks((x0, x1, x2, x3, x4), x) && all_keyed(s, (x0, x1, x2, x3, x4)));
    let (x0, x1) = order2(x0, x1);
    assert(same_ranks((x0, x1, x2, x3, x4), x) && all_keyed(s, (x0, x1, x2, x3, x4)));
    (x0, x1, x2, x3, x4)
}

/// Moves the key at position 4 back into the sorted run before it.
#[verifier::rlimit(50)]
fn insert_fifth(x: Keyed5, Ghost(s): Ghost<Seq<u8>>) -> (r: Keyed5)
    requires
        all_keyed(s, x),
        x.0.0 >= x.1.0 >= x.2.0 >= x.3.0,
    ensures
        all_keyed(s, r),
        same_ranks(r, x),
        r.0.0 >= r.1.0 >= r.2.0 >= r.3.0 >= r.4.0,
{
    let (x0, x1, x2, x3, x4) = x;
    let (x3, x4) = order2(x3, x4);
    assert(same_ranks((x0, x1, x2, x3, x4), x) && all_keyed(s, (x0, x1, x2, x3, x4)));
    let (x2, x3) = order2(x2, x3);
    assert(same_ranks((x0, x1, x2, x3, x4), x) && all_keyed(s, (x0, x1, x2, x3, x4)));
    let (x1, x2) = order2(x1, x2);
    assert(same_ranks((x0, x1, x2, x3, x4), x) && all_keyed(s, (x0, x1, x2, x3, x4)));
    let (x0, x1) = order2(x0, x1);
    assert(same_ranks((x0, x1, x2, x3, x4), x) && all_keyed(s, (x0, x1, x2, x3, x4)));
    (x0, x1, x2, x3, x4)
}

/// Sorts five keyed ranks by key, largest first.
fn sort_keyed(x: Keyed5, Ghost(s): Ghost<Seq<u8>>) -> (r: Keyed5)
    requires
        all_keyed(s, x),
    ensures
        r.0.0 >= r.1.0 >= r.2.0 >= r.3.0 >= r.4.0,
        all_keyed(s, r),
        same_ranks(r, x),
{
    let y = insert_second(x, Ghost(s));
    let y = insert_third(y, Ghost(s));
    let y = insert_fourth(y, Ghost(s));
    let y = insert_fifth(y, Ghost(s));
    y
}

/// The ranks of `s` arranged by copies and then rank, highest first.
fn arranged_ranks(s: &[u8; 5]) -> (o: [u8; 5])
    requires
        forall|i: int| 0 <= i < 5 ==> 2 <= #[trigger] s@[i] <= 14,
    ensures
        is_arrangement(s@, o@),
{
    let x0 = (count_rank(s, s[0]) * 16 + s[0], s[0]);
    let x1 = (count_rank(s, s[1]) * 16 + s[1], s[1]);
    let x2 = (count_rank(s, s[2]) * 16 + s[2], s[2]);
    let x3 = (count_rank(s, s[3]) * 16 + s[3], s[3]);
    let x4 = (count_rank(s, s[4]) * 16 + s[4], s[4]);
    let (y0, y1, y2, y3, y4) = sort_keyed((x0, x1, x2, x3, x4), Ghost(s@));
    let o = [y0.1, y1.1, y2.1, y3.1, y4.1];
    assert(o@ =~= seq![y0.1, y1.1, y2.1, y3.1, y4.1]);
    assert forall|r: u8| #[trigger] copies(o@, r) == copies(s@, r) by {
        assert(count_among(r, y0.1, y1.1, y2.1, y3.1, y4.1) == count_among(
            r,
            x0.1,
            x1.1,
            x2.1,
            x3.1,
            x4.1,
        ));
    }
    let ghost ys = seq![y0, y1, y2, y3, y4];
    assert forall|i: int, j: int| 0 <= i < j < 5 implies goes_ahead(
        s@,
        #[trigger] o@[i],
        #[trigger] o@[j],
    ) by {
        assert(ys[i].0 >= ys[j].0);
        assert(keyed(s@, ys[i]) && keyed(s@, ys[j]));
        assert(o@[i] == ys[i].1 && o@[j] == ys[j].1);
    }
    o
}

/// The group sizes of five cards, largest first, and their group score.
pub fn get_groupings_and_score(cards: &Vec<Card>) -> (r: (Vec<u8>, u64))
    requires
        is_five_card_hand(cards@),
    ensures
        r.0@ == group_sizes_of(matching_pairs(ranks(cards@))),
        r.1 as int == group_score(ranks(cards@)),
{
    let s = rank_array(cards);
    let o = arranged_ranks(&s);
    proof {
        lemma_arrangement_unique(s@, o@, arrangement(s@));
    }
    let score: u64 = o[0] as u64 * 65536 + o[1] as u64 * 4096 + o[2] as u64 * 256 + o[3] as u64
        * 16 + o[4] as u64;
    let pairs = count_matching_pairs(&s);
    let sizes: Vec<u8> = if pairs == 6 {
        vec![4, 1]
    } else if pairs == 4 {
        vec![3, 2]
    } else if pairs == 3 {
        vec![3, 1, 1]
    } else if pairs == 2 {
        vec![2, 2, 1]
    } else if pairs == 1 {
        vec![2, 1, 1, 1]
    } else if pairs == 0 {
        vec![1, 1, 1, 1, 1]
    } else {
        vec![5]
    };
    assert(sizes@ =~= group_sizes_of(matching_pairs(ranks(cards@))));
    (sizes, score)
}

fn sizes_are(sizes: &Vec<u8>, expected: &[u8]) -> (r: bool)
    ensures
        r == (sizes@ == expected@),
{
    if sizes.len() != expected.len() {
        return false;
    }
    let mut i: usize = 0;
    while i < sizes.len()
        invariant
            sizes@.len() == expected@.len(),
            0 <= i <= sizes@.len(),
            forall|k: int| 0 <= k < i ==> sizes@[k] == expected@[k],
        decreases sizes@.len() - i,
    {
        if sizes[i] != expected[i] {
            return false;
        }
        i = i + 1;
    }
    assert(sizes@ =~= expected@);
    true
}

/// The group score of five cards where their group sizes are `expected`.
fn groups_checker(cards: &Vec<Card>, expected: &[u8]) -> (r: Option<u64>)
    requires
        is_five_card_hand(cards@),
    ensures
        r == (if group_sizes_of(matching_pairs(ranks(cards@))) == expected@ {
            Some(group_score(ranks(cards@)) as u64)
        } else {
            None
        }),
{
    let (sizes, score) = get_groupings_and_score(cards);
    if sizes_are(&sizes, expected) {
        Some(score)
    } else {
        None
    }
}

/// Whether all five cards share one suit.
pub fn suits_match(cards: &Vec<Card>) -> (r: bool)
    requires
        cards@.len() == 5,
    ensures
        r == same_suit(cards@),
{
    let first = cards[0].suit;
    cards[1].suit == first && cards[2].suit == first && cards[3].suit == first && cards[4].suit
        == first
}

fn lower(a: u8, b: u8) -> (r: u8)
    ensures
        r as int == vstd::math::min(a as int, b as int),
{
    if a <= b {
        a
    } else {
        b
    }
}

fn higher(a: u8, b: u8) -> (r: u8)
    ensures
        r as int == vstd::math::max(a as int, b as int),
{
    if a >= b {
        a
    } else {
        b
    }
}

/// The score of five cards as a straight, if they form one.
pub fn straight_score(cards: &Vec<Card>) -> (r: Option<u64>)
    requires
        is_five_card_hand(cards@),
    ensures
        scored(r, straight_value(ranks(cards@))),
{
    let s = rank_array(cards);
    if count_matching_pairs(&s) != 0 {
        return None;
    }
    let ace_low = (s[0] == 14 || s[0] <= 5) && (s[1] == 14 || s[1] <= 5) && (s[2] == 14 || s[2]
        <= 5) && (s[3] == 14 || s[3] <= 5) && (s[4] == 14 || s[4] <= 5);
    if ace_low {
        return Some(1);
    }
    let low = lower(lower(lower(s[0], s[1]), lower(s[2], s[3])), s[4]);
    let high = higher(higher(higher(s[0], s[1]), higher(s[2], s[3])), s[4]);
    if high - low == 4 {
        Some(low as u64)
    } else {
        None
    }
}

/// The score of a straight flush.
fn straight_flush_checker(cards: &Vec<Card>) -> (r: Option<u64>)
    requires
        is_five_card_hand(cards@),
    ensures
        scored(r, fit_score(cards@, HandType::StraightFlush)),
{
    if suits_match(cards) {
        straight_score(cards)
    } else {
        None
    }
}

/// The score of four of a kind.
fn quads_checker(cards: &Vec<Card>) -> (r: Option<u64>)
    requires
        is_five_card_hand(cards@),
    ensures
        scored(r, fit_score(cards@, HandType::Quads)),
{
    groups_checker(cards, &[4, 1])
}

/// The score of a full house.
fn full_house_checker(cards: &Vec<Card>) -> (r: Option<u64>)
    requires
        is_five_card_hand(cards@),
    ensures
        scored(r, fit_score(cards@, HandType::FullHouse)),
{
    groups_checker(cards, &[3, 2])
}

/// The score of a flush.
fn flush_checker(cards: &Vec<Card>) -> (r: Option<u64>)
    requires
        is_five_card_hand(cards@),
    ensures
        scored(r, fit_score(cards@, HandType::Flush)),
{
    if suits_match(cards) {
        Some(get_groupings_and_score(cards).1)
    } else {
        None
    }
}

/// The score of a straight.
fn straight_checker(cards: &Vec<Card>) -> (r: Option<u64>)
    requires
        is_five_card_hand(cards@),
    ensures
        scored(r, fit_score(cards@, HandType::Straight)),
{
    straight_score(cards)
}

/// The score of three of a kind.
fn three_of_a_kind_checker(cards: &Vec<Card>) -> (r: Option<u64>)
    requires
        is_five_card_hand(cards@),
    ensures
        scored(r, fit_score(cards@, HandType::ThreeOfAKind)),
{
    groups_checker(cards, &[3, 1, 1])
}

/// The score of two pair.
fn two_pair_checker(cards: &Vec<Card>) -> (r: Option<u64>)
    requires
        is_five_card_hand(cards@),
    ensures
        scored(r, fit_score(cards@, HandType::TwoPair)),
{
    groups_checker(cards, &[2, 2, 1])
}

/// The score of one pair.
fn pair_checker(cards: &Vec<Card>) -> (r: Option<u64>)
    requires
        is_five_card_hand(cards@),
    ensures
        scored(r, fit_score(cards@, HandType::Pair)),
{
    groups_checker(cards, &[2, 1, 1, 1])
}

/// The score of a high-card hand.
fn high_card_checker(cards: &Vec<Card>) -> (r: Option<u64>)
    requires
        is_five_card_hand(cards@),
    ensures
        scored(r, fit_score(cards@, HandType::HighCard)),
{
    groups_checker(cards, &[1, 1, 1, 1, 1])
}

} // verus!

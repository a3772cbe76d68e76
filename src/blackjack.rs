//! Hands, the game between a human and the dealer, and the byte format a game
//! is saved in.
use crate::terminal::{columns_text, centred_text, divider_text, string_views, Terminal};
use crate::cards::{full_deck, lemma_code_bijection, lemma_full_deck_counts, Card, CardNumber, Deck};
use rand::rngs::StdRng;
use vstd::prelude::*;
use vstd::seq_lib::*;
use vstd::string::StringExecFns;

verus! {

/// What can go wrong in the engine.
#[derive(Clone, Debug, PartialEq, Eq)]
pub enum BlackjackError {
    /// Reading or writing the save file failed; holds the reason.
    IOError { message: String },
    /// More cards were asked of the deck than it holds.
    DeckUnderflow { requested: usize, remaining: usize },
    /// A saved game is truncated, holds a byte no game encodes to, or does
    /// not hold exactly one deck of cards.
    FormatError,
    /// An action was asked for in a phase of the game that does not take it.
    InvalidStateTransition,
}

/// Longest hand whose score is computed; far beyond any hand dealt from one
/// deck, it keeps the running total within a `u32`.
pub const MAX_HAND: usize = 0x1000_0000;

/// Sum of the blackjack values of a hand, every ace counted as 1.
pub open spec fn hard_total(hand: Seq<Card>) -> nat
    decreases hand.len(),
{
    if hand.len() == 0 {
        0
    } else {
        hard_total(hand.drop_last()) + hand.last().spec_blackjack_value()
    }
}

/// Number of aces (cards of blackjack value 1) in a hand.
pub open spec fn count_aces(hand: Seq<Card>) -> nat
    decreases hand.len(),
{
    if hand.len() == 0 {
        0
    } else {
        count_aces(hand.drop_last()) + if hand.last().spec_blackjack_value() == 1 { 1nat } else { 0nat }
    }
}

/// The score of a hand: its hard total, plus 10 when it holds an ace that can
/// count as 11 without taking the total past 21.
pub open spec fn hand_score(hand: Seq<Card>) -> nat {
    if count_aces(hand) > 0 && hard_total(hand) + 10 <= 21 {
        hard_total(hand) + 10
    } else {
        hard_total(hand)
    }
}

/// A hand counts each ace at least once in its hard total.
proof fn lemma_aces_within_total(hand: Seq<Card>)
    ensures
        count_aces(hand) <= hard_total(hand),
        hard_total(hand) <= 10 * hand.len(),
    decreases hand.len(),
{
    if hand.len() > 0 {
        lemma_aces_within_total(hand.drop_last());
    }
}

/// A hand of aces only counts each ace once in its hard total.
proof fn lemma_all_aces(hand: Seq<Card>)
    requires
        forall|i: int| 0 <= i < hand.len() ==> (#[trigger] hand[i]).number == CardNumber::Ace,
    ensures
        hard_total(hand) == hand.len(),
        count_aces(hand) == hand.len(),
    decreases hand.len(),
{
    if hand.len() > 0 {
        let init = hand.drop_last();
        lemma_all_aces(init);
    }
}

/// The ace promotion law: a hand of `n >= 2` aces scores `n + 10 * k`, where
/// `k` is the largest natural number with `n + 10 * k <= 21` (0 when even
/// `n` exceeds 21).
pub proof fn lemma_ace_promotion(hand: Seq<Card>)
    requires
        hand.len() >= 2,
        forall|i: int| 0 <= i < hand.len() ==> (#[trigger] hand[i]).number == CardNumber::Ace,
    ensures
        ({
            let n = hand.len() as int;
            let k = if n <= 21 { (21 - n) / 10 } else { 0 };
            &&& hand_score(hand) == n + 10 * k
            &&& k == 0 || n + 10 * k <= 21
            &&& n + 10 * (k + 1) > 21
        }),
{
    lemma_all_aces(hand);
}

/// A hand as text: per card, its glyph, a space and its name, then a line
/// break.
pub open spec fn hand_text(hand: Seq<Card>) -> Seq<char>
    decreases hand.len(),
{
    if hand.len() == 0 {
        Seq::empty()
    } else {
        hand_text(hand.drop_last()) + seq![hand.last().glyph() as char] + " "@ + hand.last().text() + "\n"@
    }
}

/// The cards one side holds, in the order they were drawn.
#[derive(Clone, Debug, PartialEq, Eq)]
pub struct Player {
    hand: Vec<Card>,
}

impl View for Player {
    type V = Seq<Card>;

    closed spec fn view(&self) -> Seq<Card> {
        self.hand@
    }
}

impl Player {
    pub fn new(hand: Vec<Card>) -> (r: Player)
        ensures
            r@ == hand@,
    {
        Player { hand }
    }

    /// The cards in the hand, first drawn first.
    pub fn hand(&self) -> (r: &Vec<Card>)
        ensures
            r@ == self@,
    {
        &self.hand
    }

    /// Adds a drawn card to the hand.
    pub fn hit(&mut self, card: Card)
        ensures
            final(self)@ == old(self)@.push(card),
    {
        self.hand.push(card);
    }

    /// The hand as text, one card per line.
    pub fn to_string(&self) -> (r: String)
        ensures
            r@ == hand_text(self@),
    {
        let mut s = String::new();
        let mut i: usize = 0;
        while i < self.hand.len()
            invariant
                i <= self.hand@.len(),
                s@ == hand_text(self.hand@.subrange(0, i as int)),
            decreases self.hand@.len() - i,
        {
            proof {
                assert(self.hand@.subrange(0, i + 1).drop_last() =~= self.hand@.subrange(0, i as int));
            }
            let card = &self.hand[i];
            s.append(card.unicode().as_str());
            s.append(" ");
            s.append(card.to_string().as_str());
            s.append("\n");
            i = i + 1;
        }
        proof {
            assert(self.hand@.subrange(0, i as int) =~= self.hand@);
        }
        s
    }

    /// Whether the hand's score is over 21.
    pub fn bust(&self) -> (r: bool)
        requires
            self@.len() <= MAX_HAND,
        ensures
            r == (hand_score(self@) > 21),
    {
        self.score() > 21
    }

    /// The ace-aware score: every ace starts as 1, then each ace in turn
    /// gains 10 when that keeps the total at most 21.
    pub fn score(&self) -> (r: u32)
        requires
            self@.len() <= MAX_HAND,
        ensures
            r == hand_score(self@),
    {
        let mut ace_count: u32 = 0;
        let mut total: u32 = 0;
        let mut i: usize = 0;
        while i < self.hand.len()
            invariant
                i <= self.hand@.len() <= MAX_HAND,
                ace_count == count_aces(self.hand@.subrange(0, i as int)),
                total + ace_count == hard_total(self.hand@.subrange(0, i as int)),
                total + ace_count <= 10 * i,
            decreases self.hand@.len() - i,
        {
            let card = &self.hand[i];
            proof {
                assert(self.hand@.subrange(0, i + 1).drop_last() =~= self.hand@.subrange(0, i as int));
            }
            if card.blackjack_value() == 1 {
                ace_count = ace_count + 1;
            } else {
                total = total + card.blackjack_value();
            }
            i = i + 1;
        }
        assert(self.hand@.subrange(0, i as int) =~= self.hand@);
        let ghost hard = hard_total(self.hand@);
        let ghost aces = ace_count as nat;
        proof {
            lemma_aces_within_total(self.hand@);
        }
        total = total + ace_count;
        while ace_count != 0
            invariant
                aces <= hard,
                hard + 20 <= u32::MAX,
                ace_count <= aces,
                total == hard + if ace_count < aces && hard + 10 <= 21 { 10int } else { 0int },
            decreases ace_count,
        {
            if total + 10 <= 21 {
                total = total + 10;
            }
            ace_count = ace_count - 1;
        }
        total
    }
}

/// Multiset of a concatenation of three sequences.
pub proof fn lemma_multiset_concat3(a: Seq<Card>, b: Seq<Card>, c: Seq<Card>)
    ensures
        (a + b + c).to_multiset() == a.to_multiset().add(b.to_multiset()).add(c.to_multiset()),
{
    lemma_multiset_commutative(a + b, c);
    lemma_multiset_commutative(a, b);
}

/// What reshuffling and drawing one card does to a deck and a hand.
pub open spec fn draw_outcome(
    deck_before: Seq<Card>,
    deck_after: Seq<Card>,
    hand_before: Seq<Card>,
    hand_after: Seq<Card>,
    r: Result<(), BlackjackError>,
) -> bool {
    if deck_before.len() == 0 {
        r == Err::<(), BlackjackError>(BlackjackError::DeckUnderflow { requested: 1, remaining: 0 })
            && deck_after == deck_before && hand_after == hand_before
    } else {
        &&& (r is Ok)
        &&& hand_after.len() == hand_before.len() + 1
        &&& hand_after.drop_last() == hand_before
        &&& deck_after.push(hand_after.last()).to_multiset() == deck_before.to_multiset()
    }
}

impl Deck {
    /// Reshuffles the whole deck, then deals its top card into `player`'s
    /// hand. Fails, changing nothing, when the deck is empty.
    pub fn hit(&mut self, player: &mut Player, rng: &mut StdRng) -> (r: Result<(), BlackjackError>)
        ensures
            draw_outcome(old(self)@, final(self)@, old(player)@, final(player)@, r),
    {
        if self.is_empty() {
            return Err(BlackjackError::DeckUnderflow { requested: 1, remaining: 0 });
        }
        self.shuffle(rng);
        let ghost shuffled = self@;
        proof {
            to_multiset_len(old(self)@);
            to_multiset_len(shuffled);
        }
        match self.deal(1) {
            Ok(drawn) => {
                let card = drawn[0];
                player.hit(card);
                proof {
                    assert(shuffled =~= self@.push(card));
                    assert(final(player)@.drop_last() =~= old(player)@);
                }
                Ok(())
            },
            Err(e) => Err(e),
        }
    }
}

/// The phases of a game: the human draws or stands, then the dealer draws
/// to its threshold, then the winner is known.
#[derive(Clone, Copy, Debug, PartialEq, Eq, Structural)]
pub enum Phase {
    HumanTurn,
    DealerTurn,
    Resolved,
}

/// What the human may ask for on their turn.
#[derive(Clone, Copy, Debug, PartialEq, Eq, Structural)]
pub enum Action {
    Hit,
    Stand,
}

/// The dealer draws while its score is at most this.
pub const DEALER_STANDS_ABOVE: u32 = 16;

/// A game as plain values: the two hands, the undealt cards and whether it
/// is still the human's first turn (the dealer's second card hidden).
pub struct GameView {
    pub dealer: Seq<Card>,
    pub human: Seq<Card>,
    pub deck: Seq<Card>,
    pub first_turn: bool,
}

impl GameView {
    /// Every card of the game: dealer's hand, human's hand, then the deck.
    pub open spec fn all_cards(self) -> Seq<Card> {
        self.dealer + self.human + self.deck
    }

    /// The closed-system invariant: the hands and the deck hold together
    /// exactly one full deck.
    pub open spec fn wf(self) -> bool {
        self.all_cards().to_multiset() == full_deck().to_multiset()
    }

    pub open spec fn phase(self) -> Phase {
        if self.first_turn {
            Phase::HumanTurn
        } else if hand_score(self.dealer) <= DEALER_STANDS_ABOVE {
            Phase::DealerTurn
        } else {
            Phase::Resolved
        }
    }

    /// The human wins when not bust and either above the dealer or facing a
    /// bust dealer.
    pub open spec fn human_wins(self) -> bool {
        !(hand_score(self.human) > 21 || (hand_score(self.human) <= hand_score(self.dealer)
            && !(hand_score(self.dealer) > 21)))
    }
}

/// What one step of the human's turn does to a game.
pub open spec fn action_outcome(
    before: GameView,
    after: GameView,
    action: Action,
    r: Result<(), BlackjackError>,
) -> bool {
    if !before.first_turn {
        r == Err::<(), BlackjackError>(BlackjackError::InvalidStateTransition) && after == before
    } else if action == Action::Stand {
        (r is Ok) && after == (GameView { first_turn: false, ..before })
    } else if before.deck.len() == 0 {
        r == Err::<(), BlackjackError>(BlackjackError::DeckUnderflow { requested: 1, remaining: 0 })
            && after == before
    } else {
        &&& (r is Ok)
        &&& after.dealer == before.dealer
        &&& after.human.len() == before.human.len() + 1
        &&& after.human.drop_last() == before.human
        &&& after.deck.len() + 1 == before.deck.len()
        &&& after.first_turn == !(hand_score(after.human) > 21)
    }
}

/// What the dealer's turn does to a game: it is refused during the human's
/// turn; otherwise the dealer's hand grows by cards drawn only while its
/// score was at most 16, and the turn succeeds exactly when the score ends
/// above 16 (failing only on an empty deck).
pub open spec fn dealer_outcome(before: GameView, after: GameView, r: Result<(), BlackjackError>) -> bool {
    if before.first_turn {
        r == Err::<(), BlackjackError>(BlackjackError::InvalidStateTransition) && after == before
    } else {
        &&& !after.first_turn
        &&& after.human == before.human
        &&& before.dealer.len() <= after.dealer.len()
        &&& after.dealer.subrange(0, before.dealer.len() as int) == before.dealer
        &&& forall|k: int|
            before.dealer.len() <= k < after.dealer.len() ==> hand_score(#[trigger] after.dealer.subrange(0, k))
                <= DEALER_STANDS_ABOVE
        &&& ((r is Ok) <==> hand_score(after.dealer) > DEALER_STANDS_ABOVE)
        &&& ((r is Err) ==> r == Err::<(), BlackjackError>(
            BlackjackError::DeckUnderflow { requested: 1, remaining: 0 },
        ) && after.deck.len() == 0)
    }
}

/// The closed-system law: a well-formed game holds 52 cards, each card of
/// the deck exactly once and no other card.
pub proof fn lemma_closed_system(g: GameView)
    requires
        g.wf(),
    ensures
        g.dealer.len() + g.human.len() + g.deck.len() == 52,
        forall|c: Card| #[trigger] g.all_cards().to_multiset().count(c) == if c.is_standard() { 1nat } else { 0nat },
        forall|i: int| 0 <= i < g.all_cards().len() ==> (#[trigger] g.all_cards()[i]).is_standard(),
        g.all_cards().no_duplicates(),
{
    broadcast use to_multiset_contains;
    lemma_full_deck_counts(Card::of_code(0));
    to_multiset_len(g.all_cards());
    to_multiset_len(full_deck());
    assert forall|c: Card| #[trigger] g.all_cards().to_multiset().count(c) == if c.is_standard() { 1nat } else { 0nat } by {
        lemma_full_deck_counts(c);
    }
    assert forall|i: int| 0 <= i < g.all_cards().len() implies (#[trigger] g.all_cards()[i]).is_standard() by {
        let c = g.all_cards()[i];
        assert(g.all_cards().contains(c));
        lemma_full_deck_counts(c);
    }
    let all = g.all_cards();
    assert forall|i: int, j: int| 0 <= i < all.len() && 0 <= j < all.len() && i != j implies all[i] != all[j] by {
        if all[i] == all[j] {
            let rest = all.remove(i);
            to_multiset_remove(all, i);
            let j2 = if j < i { j } else { j - 1 };
            assert(rest[j2] == all[j]);
            to_multiset_contains(rest, all[i]);
            lemma_full_deck_counts(all[i]);
        }
    }
}

/// Leading byte of a saved game during the human's first turn.
pub const FLAG_FIRST_TURN: u8 = 0b1100_0001;
/// Leading byte of a saved game after the human's first turn.
pub const FLAG_LATER_TURN: u8 = 0b1100_0000;
/// Top-two-bit tags of card bytes: which collection the card belongs to.
pub const TAG_DECK: u8 = 0b00;
pub const TAG_DEALER: u8 = 0b01;
pub const TAG_HUMAN: u8 = 0b10;
/// The tag no card byte may carry; it marks the leading byte.
pub const TAG_FLAG: u8 = 0b11;

pub open spec fn flag_byte(first_turn: bool) -> u8 {
    if first_turn {
        FLAG_FIRST_TURN
    } else {
        FLAG_LATER_TURN
    }
}

/// The byte of a standard card under a tag: the tag in the top two bits,
/// the card's code in the low six.
pub open spec fn card_byte(c: Card, tag: u8) -> u8 {
    (tag * 64 + c.code()) as u8
}

pub open spec fn encode_cards(cards: Seq<Card>, tag: u8) -> Seq<u8> {
    cards.map_values(|c: Card| card_byte(c, tag))
}

/// The saved form of a game: the flag byte, then the dealer's cards, the
/// human's cards and the deck's cards, each under its tag.
pub open spec fn encode_view(g: GameView) -> Seq<u8> {
    seq![flag_byte(g.first_turn)] + encode_cards(g.dealer, TAG_DEALER) + encode_cards(g.human, TAG_HUMAN)
        + encode_cards(g.deck, TAG_DECK)
}

/// A byte that may follow the flag byte: not tagged `11`, with a code below 52.
pub open spec fn is_card_byte(b: u8) -> bool {
    b / 64 != TAG_FLAG && b % 64 < 52
}

/// The cards of the bytes that carry `tag`, in byte order.
pub open spec fn tagged_cards(bytes: Seq<u8>, tag: u8) -> Seq<Card>
    decreases bytes.len(),
{
    if bytes.len() == 0 {
        Seq::empty()
    } else {
        let rest = tagged_cards(bytes.drop_last(), tag);
        if bytes.last() / 64 == tag {
            rest.push(Card::of_code((bytes.last() % 64) as nat))
        } else {
            rest
        }
    }
}

/// The game a byte sequence describes: each card byte routed by its tag.
pub open spec fn decode_view(bytes: Seq<u8>) -> GameView {
    let body = bytes.subrange(1, bytes.len() as int);
    GameView {
        dealer: tagged_cards(body, TAG_DEALER),
        human: tagged_cards(body, TAG_HUMAN),
        deck: tagged_cards(body, TAG_DECK),
        first_turn: bytes[0] == FLAG_FIRST_TURN,
    }
}

/// The byte sequences that decode: a flag byte, then card bytes only, which
/// together name every card of the deck exactly once.
pub open spec fn decodable(bytes: Seq<u8>) -> bool {
    &&& bytes.len() >= 1
    &&& (bytes[0] == FLAG_FIRST_TURN || bytes[0] == FLAG_LATER_TURN)
    &&& forall|i: int| 1 <= i < bytes.len() ==> is_card_byte(#[trigger] bytes[i])
    &&& decode_view(bytes).wf()
}

/// What decoding returns: the game the bytes describe when they decode, the
/// format error otherwise.
pub open spec fn decode_outcome(bytes: Seq<u8>, r: Result<Game, BlackjackError>) -> bool {
    match r {
        Ok(g) => decodable(bytes) && g@ == decode_view(bytes),
        Err(e) => !decodable(bytes) && e == BlackjackError::FormatError,
    }
}

/// Routing bytes by tag commutes with concatenation.
pub proof fn lemma_tagged_concat(a: Seq<u8>, b: Seq<u8>, tag: u8)
    ensures
        tagged_cards(a + b, tag) == tagged_cards(a, tag) + tagged_cards(b, tag),
    decreases b.len(),
{
    if b.len() == 0 {
        assert(a + b =~= a);
        assert(tagged_cards(a, tag) + tagged_cards(b, tag) =~= tagged_cards(a, tag));
    } else {
        assert((a + b).drop_last() =~= a + b.drop_last());
        lemma_tagged_concat(a, b.drop_last(), tag);
        assert(tagged_cards(a + b, tag) =~= tagged_cards(a, tag) + tagged_cards(b, tag));
    }
}

/// Standard cards encoded under one tag come back under that tag, and not
/// under any other.
pub proof fn lemma_tagged_encoded(cards: Seq<Card>, enc_tag: u8, tag: u8)
    requires
        enc_tag < 3,
        forall|i: int| 0 <= i < cards.len() ==> (#[trigger] cards[i]).is_standard(),
    ensures
        tagged_cards(encode_cards(cards, enc_tag), tag) == if tag == enc_tag { cards } else { Seq::empty() },
        forall|i: int| 0 <= i < cards.len() ==> is_card_byte(#[trigger] encode_cards(cards, enc_tag)[i]),
    decreases cards.len(),
{
    lemma_code_bijection();
    if cards.len() > 0 {
        let init = cards.drop_last();
        assert(encode_cards(cards, enc_tag).drop_last() =~= encode_cards(init, enc_tag));
        assert(forall|i: int| 0 <= i < init.len() ==> init[i] == cards[i]);
        lemma_tagged_encoded(init, enc_tag, tag);
        let c = cards.last();
        if tag == enc_tag {
            assert(tagged_cards(encode_cards(cards, enc_tag), tag) =~= cards);
        } else {
            assert(tagged_cards(encode_cards(cards, enc_tag), tag) =~= Seq::<Card>::empty());
        }
        assert forall|i: int| 0 <= i < cards.len() implies is_card_byte(#[trigger] encode_cards(cards, enc_tag)[i]) by {
            assert(cards[i].code() < 52);
        }
    }
}

/// The round-trip law: a well-formed game's bytes decode, to that game, and
/// encoding the decoded game gives the same bytes back.
pub proof fn lemma_round_trip(g: GameView)
    requires
        g.wf(),
    ensures
        decodable(encode_view(g)),
        decode_view(encode_view(g)) == g,
        encode_view(decode_view(encode_view(g))) == encode_view(g),
{
    lemma_closed_system(g);
    let all = g.all_cards();
    assert forall|i: int| 0 <= i < g.dealer.len() implies (#[trigger] g.dealer[i]).is_standard() by {
        assert(all[i] == g.dealer[i]);
    }
    assert forall|i: int| 0 <= i < g.human.len() implies (#[trigger] g.human[i]).is_standard() by {
        assert(all[g.dealer.len() + i] == g.human[i]);
    }
    assert forall|i: int| 0 <= i < g.deck.len() implies (#[trigger] g.deck[i]).is_standard() by {
        assert(all[g.dealer.len() + g.human.len() + i] == g.deck[i]);
    }
    let e1 = encode_cards(g.dealer, TAG_DEALER);
    let e2 = encode_cards(g.human, TAG_HUMAN);
    let e0 = encode_cards(g.deck, TAG_DECK);
    let b = encode_view(g);
    let body = b.subrange(1, b.len() as int);
    assert(body =~= e1 + e2 + e0);
    lemma_tagged_encoded(g.dealer, TAG_DEALER, TAG_DEALER);
    lemma_tagged_encoded(g.dealer, TAG_DEALER, TAG_HUMAN);
    lemma_tagged_encoded(g.dealer, TAG_DEALER, TAG_DECK);
    lemma_tagged_encoded(g.human, TAG_HUMAN, TAG_DEALER);
    lemma_tagged_encoded(g.human, TAG_HUMAN, TAG_HUMAN);
    lemma_tagged_encoded(g.human, TAG_HUMAN, TAG_DECK);
    lemma_tagged_encoded(g.deck, TAG_DECK, TAG_DEALER);
    lemma_tagged_encoded(g.deck, TAG_DECK, TAG_HUMAN);
    lemma_tagged_encoded(g.deck, TAG_DECK, TAG_DECK);
    lemma_tagged_concat(e1 + e2, e0, TAG_DEALER);
    lemma_tagged_concat(e1, e2, TAG_DEALER);
    lemma_tagged_concat(e1 + e2, e0, TAG_HUMAN);
    lemma_tagged_concat(e1, e2, TAG_HUMAN);
    lemma_tagged_concat(e1 + e2, e0, TAG_DECK);
    lemma_tagged_concat(e1, e2, TAG_DECK);
    assert(decode_view(b).dealer =~= g.dealer);
    assert(decode_view(b).human =~= g.human);
    assert(decode_view(b).deck =~= g.deck);
    assert(decode_view(b) =~= g);
    assert forall|i: int| 1 <= i < b.len() implies is_card_byte(#[trigger] b[i]) by {
        assert(b[i] == body[i - 1]);
        let j = i - 1;
        if j < e1.len() {
            assert(body[j] == e1[j]);
        } else if j < e1.len() + e2.len() {
            assert(body[j] == e2[j - e1.len()]);
        } else {
            assert(body[j] == e0[j - e1.len() - e2.len()]);
        }
    }
}

/// Appends the byte of each card under `tag`.
fn push_card_bytes(out: &mut Vec<u8>, cards: &Vec<Card>, tag: u8)
    requires
        tag < 3,
        forall|i: int| 0 <= i < cards@.len() ==> (#[trigger] cards@[i]).is_standard(),
    ensures
        final(out)@ == old(out)@ + encode_cards(cards@, tag),
{
    let mut i: usize = 0;
    while i < cards.len()
        invariant
            tag < 3,
            i <= cards@.len(),
            forall|j: int| 0 <= j < cards@.len() ==> (#[trigger] cards@[j]).is_standard(),
            out@ == old(out)@ + encode_cards(cards@.subrange(0, i as int), tag),
        decreases cards@.len() - i,
    {
        let code = cards[i].to_code();
        out.push(tag * 64 + code);
        proof {
            assert(encode_cards(cards@.subrange(0, i + 1), tag) =~= encode_cards(
                cards@.subrange(0, i as int),
                tag,
            ).push(card_byte(cards@[i as int], tag)));
        }
        i = i + 1;
    }
    assert(cards@.subrange(0, i as int) =~= cards@);
}

/// Adding one card to any of three sequences adds it to their multiset.
proof fn lemma_add_card(d: Seq<Card>, h: Seq<Card>, k: Seq<Card>, d2: Seq<Card>, h2: Seq<Card>, k2: Seq<Card>, c: Card)
    requires
        (d2 == d.push(c) && h2 == h && k2 == k) || (d2 == d && h2 == h.push(c) && k2 == k) || (d2 == d
            && h2 == h && k2 == k.push(c)),
    ensures
        (d2 + h2 + k2).to_multiset() == (d + h + k).to_multiset().insert(c),
{
    broadcast use to_multiset_build;
    lemma_multiset_concat3(d, h, k);
    lemma_multiset_concat3(d2, h2, k2);
    assert((d2 + h2 + k2).to_multiset() =~= (d + h + k).to_multiset().insert(c));
}

/// The dealer's column: while it is the human's first turn, a hidden card
/// and the dealer's second card; afterwards the whole hand.
pub open spec fn dealer_column(g: GameView) -> Seq<char> {
    if g.first_turn {
        "The Dealer:\n\u{1F0A0} Hidden Card\n"@ + if g.dealer.len() >= 2 {
            seq![g.dealer[1].glyph() as char] + " "@ + g.dealer[1].text()
        } else {
            Seq::empty()
        }
    } else {
        "The Dealer:\n"@ + hand_text(g.dealer)
    }
}

/// The human's column: the hand, and "Bust" below it once over 21.
pub open spec fn human_column(g: GameView) -> Seq<char> {
    "The Player:\n"@ + hand_text(g.human) + if hand_score(g.human) > 21 { "Bust\n"@ } else { Seq::empty() }
}

/// The game's screen: a rule, the centred title, a rule, then the dealer's
/// and the human's columns side by side.
pub open spec fn screen_text(g: GameView, width: nat) -> Seq<char> {
    divider_text(width) + centred_text(width, "Blackjack"@) + divider_text(width) + columns_text(
        width,
        seq![dealer_column(g), human_column(g)],
    )
}

/// A match between the human and the dealer.
#[derive(Clone, Debug, PartialEq, Eq)]
pub struct Game {
    deck: Deck,
    human: Player,
    computer: Player,
    turn: bool,
}

impl View for Game {
    type V = GameView;

    closed spec fn view(&self) -> GameView {
        GameView { dealer: self.computer@, human: self.human@, deck: self.deck@, first_turn: self.turn }
    }
}

impl Game {
    pub open spec fn wf(&self) -> bool {
        self@.wf()
    }

    /// A new game: a full deck shuffled with `rng`, two cards dealt to the
    /// dealer, then two to the human; the human's first turn.
    pub fn new(rng: &mut StdRng) -> (r: Game)
        ensures
            r.wf(),
            r@.first_turn,
            r@.dealer.len() == 2,
            r@.human.len() == 2,
            r@.deck.len() == 48,
    {
        let mut deck = Deck::new();
        deck.shuffle(rng);
        let ghost shuffled = deck@;
        proof {
            lemma_full_deck_counts(Card::of_code(0));
            to_multiset_len(full_deck());
            to_multiset_len(shuffled);
        }
        // A full deck always has the four cards dealt here.
        let computer = match deck.deal(2) {
            Ok(hand) => Player::new(hand),
            Err(_) => Player::new(Vec::new()),
        };
        let human = match deck.deal(2) {
            Ok(hand) => Player::new(hand),
            Err(_) => Player::new(Vec::new()),
        };
        let game = Game { deck, human, computer, turn: true };
        proof {
            assert(shuffled =~= game.deck@ + game.human@ + game.computer@);
            lemma_multiset_concat3(game.deck@, game.human@, game.computer@);
            lemma_multiset_concat3(game.computer@, game.human@, game.deck@);
            assert(game@.all_cards().to_multiset() =~= shuffled.to_multiset());
        }
        game
    }

    /// Whether the dealer's second card is still hidden: true until the
    /// human's turn ends.
    pub fn first_turn(&self) -> (r: bool)
        ensures
            r == self@.first_turn,
    {
        self.turn
    }

    pub fn human(&self) -> (r: &Player)
        ensures
            r@ == self@.human,
    {
        &self.human
    }

    /// The dealer's hand.
    pub fn computer(&self) -> (r: &Player)
        ensures
            r@ == self@.dealer,
    {
        &self.computer
    }

    pub fn deck(&self) -> (r: &Deck)
        ensures
            r@ == self@.deck,
    {
        &self.deck
    }

    pub fn phase(&self) -> (r: Phase)
        requires
            self.wf(),
        ensures
            r == self@.phase(),
    {
        proof {
            lemma_closed_system(self@);
        }
        if self.turn {
            Phase::HumanTurn
        } else if self.computer.score() <= DEALER_STANDS_ABOVE {
            Phase::DealerTurn
        } else {
            Phase::Resolved
        }
    }

    /// One step of the human's turn. `Hit` reshuffles the deck and draws one
    /// card into the human's hand, ending the turn if the human busts;
    /// `Stand` ends the turn. Outside the human's turn nothing changes and
    /// the request is refused.
    pub fn take_action(&mut self, action: Action, rng: &mut StdRng) -> (r: Result<(), BlackjackError>)
        requires
            old(self).wf(),
        ensures
            final(self).wf(),
            final(self)@.all_cards().to_multiset() == old(self)@.all_cards().to_multiset(),
            action_outcome(old(self)@, final(self)@, action, r),
    {
        if !self.turn {
            return Err(BlackjackError::InvalidStateTransition);
        }
        match action {
            Action::Stand => {
                self.turn = false;
                Ok(())
            },
            Action::Hit => {
                if self.deck.is_empty() {
                    return Err(BlackjackError::DeckUnderflow { requested: 1, remaining: 0 });
                }
                let ghost before = self@;
                // The deck is not empty, so the draw succeeds.
                let _ = self.deck.hit(&mut self.human, rng);
                proof {
                    let c = self.human@.last();
                    assert(self.human@ =~= before.human.push(c));
                    broadcast use to_multiset_build;
                    lemma_multiset_concat3(before.dealer, before.human, before.deck);
                    lemma_multiset_concat3(self.computer@, self.human@, self.deck@);
                    assert(self@.all_cards().to_multiset() =~= before.all_cards().to_multiset());
                    lemma_closed_system(self@);
                    to_multiset_len(self.deck@.push(c));
                    to_multiset_len(before.deck);
                }
                if self.human.bust() {
                    self.turn = false;
                }
                Ok(())
            },
        }
    }

    /// The dealer's turn: while its score is at most 16 the deck is
    /// reshuffled and one card drawn into the dealer's hand. Refused during
    /// the human's turn; fails if the deck runs out first.
    pub fn cpu_turn(&mut self, rng: &mut StdRng) -> (r: Result<(), BlackjackError>)
        requires
            old(self).wf(),
        ensures
            final(self).wf(),
            final(self)@.all_cards().to_multiset() == old(self)@.all_cards().to_multiset(),
            dealer_outcome(old(self)@, final(self)@, r),
    {
        if self.turn {
            return Err(BlackjackError::InvalidStateTransition);
        }
        let ghost start = self@;
        proof {
            lemma_closed_system(self@);
        }
        while self.computer.score() <= DEALER_STANDS_ABOVE
            invariant
                self.wf(),
                start == old(self)@,
                !start.first_turn,
                self@.all_cards().to_multiset() == start.all_cards().to_multiset(),
                !self@.first_turn,
                self@.human == start.human,
                start.dealer.len() <= self@.dealer.len(),
                self@.dealer.subrange(0, start.dealer.len() as int) == start.dealer,
                forall|k: int|
                    start.dealer.len() <= k < self@.dealer.len() ==> hand_score(
                        #[trigger] self@.dealer.subrange(0, k),
                    ) <= DEALER_STANDS_ABOVE,
                self@.dealer.len() <= 52,
            decreases self@.deck.len(),
        {
            let ghost before = self@;
            proof {
                lemma_closed_system(self@);
            }
            if self.deck.is_empty() {
                return Err(BlackjackError::DeckUnderflow { requested: 1, remaining: 0 });
            }
            // The deck is not empty, so the draw succeeds.
            let _ = self.deck.hit(&mut self.computer, rng);
            proof {
                let c = self.computer@.last();
                assert(self.computer@ =~= before.dealer.push(c));
                broadcast use to_multiset_build;
                lemma_multiset_concat3(before.dealer, before.human, before.deck);
                lemma_multiset_concat3(self.computer@, self.human@, self.deck@);
                assert(self@.all_cards().to_multiset() =~= before.all_cards().to_multiset());
                lemma_closed_system(self@);
                assert(self@.dealer.subrange(0, before.dealer.len() as int) =~= before.dealer);
                assert(self@.dealer.subrange(0, start.dealer.len() as int) =~= start.dealer);
                assert forall|k: int|
                    start.dealer.len() <= k < self@.dealer.len() implies hand_score(
                        #[trigger] self@.dealer.subrange(0, k),
                    ) <= DEALER_STANDS_ABOVE by {
                    assert(self@.dealer.subrange(0, k) =~= before.dealer.subrange(0, k));
                }
            }
        }
        Ok(())
    }

    /// The saved form of the game: the flag byte, then one byte per dealer
    /// card, per human card and per deck card.
    pub fn encode(&self) -> (r: Vec<u8>)
        requires
            self.wf(),
        ensures
            r@ == encode_view(self@),
    {
        proof {
            lemma_closed_system(self@);
            let all = self@.all_cards();
            assert forall|i: int| 0 <= i < self.computer@.len() implies (#[trigger] self.computer@[i]).is_standard() by {
                assert(all[i] == self.computer@[i]);
            }
            assert forall|i: int| 0 <= i < self.human@.len() implies (#[trigger] self.human@[i]).is_standard() by {
                assert(all[self.computer@.len() + i] == self.human@[i]);
            }
            assert forall|i: int| 0 <= i < self.deck@.len() implies (#[trigger] self.deck@[i]).is_standard() by {
                assert(all[self.computer@.len() + self.human@.len() + i] == self.deck@[i]);
            }
        }
        let mut out: Vec<u8> = Vec::new();
        out.push(if self.turn { FLAG_FIRST_TURN } else { FLAG_LATER_TURN });
        push_card_bytes(&mut out, self.computer.hand(), TAG_DEALER);
        push_card_bytes(&mut out, self.human.hand(), TAG_HUMAN);
        push_card_bytes(&mut out, self.deck.cards(), TAG_DECK);
        out
    }

    /// Reads a saved game back. Fails with `FormatError` when the bytes are
    /// empty, the first is not a flag byte, a later byte is tagged `11` or
    /// holds a code above 51, or the cards do not make up exactly one deck.
    pub fn decode(bytes: &Vec<u8>) -> (r: Result<Game, BlackjackError>)
        ensures
            decode_outcome(bytes@, r),
            r is Ok ==> r->Ok_0.wf(),
    {
        let n = bytes.len();
        if n == 0 {
            return Err(BlackjackError::FormatError);
        }
        let flag = bytes[0];
        if flag != FLAG_FIRST_TURN && flag != FLAG_LATER_TURN {
            return Err(BlackjackError::FormatError);
        }
        let mut dealer: Vec<Card> = Vec::new();
        let mut human: Vec<Card> = Vec::new();
        let mut deck: Vec<Card> = Vec::new();
        let mut seen: Vec<bool> = vec![false; 52];
        let mut repeated = false;
        let mut i: usize = 1;
        proof {
            lemma_code_bijection();
            assert(bytes@.subrange(1, 1) =~= Seq::<u8>::empty());
            let none = dealer@ + human@ + deck@;
            assert(none =~= Seq::<Card>::empty());
            assert forall|c: Card| #[trigger] none.to_multiset().count(c) == 0 by {
                to_multiset_contains(none, c);
            }
        }
        while i < n
            invariant
                1 <= i <= n,
                n == bytes@.len(),
                seen@.len() == 52,
                forall|j: int| 1 <= j < i ==> is_card_byte(#[trigger] bytes@[j]),
                dealer@ == tagged_cards(bytes@.subrange(1, i as int), TAG_DEALER),
                human@ == tagged_cards(bytes@.subrange(1, i as int), TAG_HUMAN),
                deck@ == tagged_cards(bytes@.subrange(1, i as int), TAG_DECK),
                forall|c: Card|
                    !c.is_standard() ==> #[trigger] (dealer@ + human@ + deck@).to_multiset().count(c) == 0,
                forall|k: int|
                    0 <= k < 52 ==> (#[trigger] seen@[k] <==> (dealer@ + human@ + deck@).to_multiset().count(
                        Card::of_code(k as nat),
                    ) >= 1),
                !repeated ==> forall|k: int|
                    0 <= k < 52 ==> #[trigger] (dealer@ + human@ + deck@).to_multiset().count(
                        Card::of_code(k as nat),
                    ) <= 1,
                repeated ==> exists|k: int|
                    0 <= k < 52 && #[trigger] (dealer@ + human@ + deck@).to_multiset().count(
                        Card::of_code(k as nat),
                    ) >= 2,
            decreases n - i,
        {
            let b = bytes[i];
            let tag = b / 64;
            let code = b % 64;
            if tag == TAG_FLAG || code >= 52 {
                return Err(BlackjackError::FormatError);
            }
            let card = Card::from_code(code);
            let ghost (d0, h0, k0) = (dealer@, human@, deck@);
            let ghost was_repeated = repeated;
            proof {
                lemma_code_bijection();
                assert(bytes@.subrange(1, i + 1).drop_last() =~= bytes@.subrange(1, i as int));
            }
            if tag == TAG_DEALER {
                dealer.push(card);
            } else if tag == TAG_HUMAN {
                human.push(card);
            } else {
                deck.push(card);
            }
            proof {
                lemma_add_card(d0, h0, k0, dealer@, human@, deck@, card);
                if was_repeated {
                    let j = choose|j: int|
                        0 <= j < 52 && #[trigger] (d0 + h0 + k0).to_multiset().count(Card::of_code(j as nat)) >= 2;
                    assert((dealer@ + human@ + deck@).to_multiset().count(Card::of_code(j as nat)) >= 2);
                }
            }
            if seen[code as usize] {
                repeated = true;
                assert((dealer@ + human@ + deck@).to_multiset().count(Card::of_code(code as nat)) >= 2);
            } else {
                seen.set(code as usize, true);
            }
            i = i + 1;
        }
        let mut complete = true;
        let mut k: usize = 0;
        while k < 52
            invariant
                k <= 52,
                seen@.len() == 52,
                complete <==> forall|j: int| 0 <= j < k ==> #[trigger] seen@[j],
            decreases 52 - k,
        {
            if !seen[k] {
                complete = false;
            }
            k = k + 1;
        }
        let ghost view = decode_view(bytes@);
        proof {
        }
        if repeated || !complete {
            proof {
                if repeated {
                    let j = choose|j: int|
                        0 <= j < 52 && #[trigger] (dealer@ + human@ + deck@).to_multiset().count(
                            Card::of_code(j as nat),
                        ) >= 2;
                    lemma_full_deck_counts(Card::of_code(j as nat));
                } else {
                    let j = choose|j: int| 0 <= j < 52 && !#[trigger] seen@[j];
                    lemma_full_deck_counts(Card::of_code(j as nat));
                }
            }
            return Err(BlackjackError::FormatError);
        }
        proof {
            assert forall|c: Card| #[trigger] view.all_cards().to_multiset().count(c) == full_deck().to_multiset().count(c) by {
                lemma_full_deck_counts(c);
                if c.is_standard() {
                    assert(seen@[c.code() as int]);
                }
            }
            assert(view.all_cards().to_multiset() =~= full_deck().to_multiset());
        }
        let game = Game {
            deck: Deck::new_set(deck),
            human: Player::new(human),
            computer: Player::new(dealer),
            turn: flag == FLAG_FIRST_TURN,
        };
        Ok(game)
    }

    /// The game's screen for a terminal of `term`'s width.
    pub fn render(&self, term: &Terminal) -> (r: String)
        requires
            self.wf(),
        ensures
            r@ == screen_text(self@, term.width()),
    {
        proof {
            lemma_closed_system(self@);
        }
        let mut screen = term.divider();
        screen.append(term.centre_text("Blackjack").as_str());
        screen.append(term.divider().as_str());
        let mut dealer: String;
        if self.turn {
            dealer = "The Dealer:\n\u{1F0A0} Hidden Card\n".to_owned();
            if self.computer.hand().len() >= 2 {
                let card = &self.computer.hand()[1];
                dealer.append(card.unicode().as_str());
                dealer.append(" ");
                dealer.append(card.to_string().as_str());
            }
        } else {
            dealer = "The Dealer:\n".to_owned();
            dealer.append(self.computer.to_string().as_str());
        }
        let mut human = "The Player:\n".to_owned();
        human.append(self.human.to_string().as_str());
        if self.human.bust() {
            human.append("Bust\n");
        }
        assert(dealer@ =~= dealer_column(self@));
        assert(human@ =~= human_column(self@));
        let ghost columns = seq![dealer@, human@];
        let texts = vec![dealer, human];
        proof {
            assert(string_views(texts@) =~= columns);
        }
        screen.append(term.column_text(&texts).as_str());
        screen
    }

    /// Whether the human won: not bust, and either scoring above the dealer
    /// or facing a bust dealer.
    pub fn human_win(&self) -> (r: bool)
        requires
            self.wf(),
        ensures
            r == self@.human_wins(),
    {
        proof {
            lemma_closed_system(self@);
        }
        if self.human.bust() || (self.human.score() <= self.computer.score() && !self.computer.bust()) {
            false
        } else {
            true
        }
    }
}

/// The game to play: the saved one when loading was asked for and `saved`
/// holds bytes that decode, otherwise a new game dealt with `rng`.
pub fn init_game(load: bool, saved: Option<Vec<u8>>, rng: &mut StdRng) -> (r: Game)
    ensures
        r.wf(),
        (load && saved is Some && decodable(saved->Some_0@)) ==> r@ == decode_view(saved->Some_0@),
        !(load && saved is Some && decodable(saved->Some_0@)) ==> {
            &&& r@.first_turn
            &&& r@.dealer.len() == 2
            &&& r@.human.len() == 2
            &&& r@.deck.len() == 48
        },
{
    if load {
        if let Some(bytes) = saved {
            if let Ok(game) = Game::decode(&bytes) {
                return game;
            }
        }
    }
    Game::new(rng)
}

} // verus!

//! Cards, suits, ranks and the deck they are dealt from.
use crate::blackjack::BlackjackError;
use rand::rngs::StdRng;
use rand::seq::SliceRandom;
use vstd::prelude::*;
use vstd::seq_lib::*;
use vstd::string::StringExecFns;

verus! {

/// rand's seedable standard generator (`rand::rngs::StdRng`), which the
/// shuffle draws from; opaque here, only passed through.
#[verifier::external_type_specification]
#[verifier::external_body]
pub struct ExStdRng(StdRng);

/// Relies on rand's `SliceRandom::shuffle` (Fisher-Yates by swaps): the slice
/// ends as a permutation of what it held.
#[verifier::external_body]
fn shuffle_cards(cards: &mut Vec<Card>, rng: &mut StdRng)
    ensures
        final(cards)@.to_multiset() == old(cards)@.to_multiset(),
{
    cards.shuffle(rng)
}

/// Relies on `char::from_u32`, which returns the char of every Unicode
/// scalar value (and `None` for surrogates and values past `0x10FFFF`).
#[verifier::external_body]
fn char_of_scalar(v: u32) -> (r: Option<char>)
    ensures
        (v <= 0xD7FF || (0xE000 <= v && v <= 0x10FFFF)) ==> r == Some(v as char),
{
    char::from_u32(v)
}

/// Relies on `<char as ToString>::to_string` (through `Display`): the string
/// of that one char.
#[verifier::external_body]
fn char_to_string(c: char) -> (r: String)
    ensures
        r@ == seq![c],
{
    c.to_string()
}

/// The four suits of a standard deck.
#[derive(Clone, Copy, Debug, PartialEq, Eq, Structural)]
pub enum Suits {
    Spades,
    Hearts,
    Clubs,
    Diamonds,
}

impl Suits {
    /// Position of the suit in a freshly built deck, and in a card's code.
    pub open spec fn index(self) -> nat {
        match self {
            Suits::Clubs => 0,
            Suits::Diamonds => 1,
            Suits::Hearts => 2,
            Suits::Spades => 3,
        }
    }

    /// The suit's name, as shown on a card.
    pub open spec fn name(self) -> Seq<char> {
        match self {
            Suits::Clubs => "Clubs"@,
            Suits::Diamonds => "Diamonds"@,
            Suits::Hearts => "Hearts"@,
            Suits::Spades => "Spades"@,
        }
    }

    /// First code point of the suit's block of playing-card glyphs.
    pub open spec fn glyph_base(self) -> u32 {
        match self {
            Suits::Spades => 0x1F0A0,
            Suits::Hearts => 0x1F0B0,
            Suits::Diamonds => 0x1F0C0,
            Suits::Clubs => 0x1F0D0,
        }
    }

    pub fn to_string(&self) -> (r: String)
        ensures
            r@ == self.name(),
    {
        match self {
            Suits::Clubs => "Clubs".to_owned(),
            Suits::Diamonds => "Diamonds".to_owned(),
            Suits::Hearts => "Hearts".to_owned(),
            Suits::Spades => "Spades".to_owned(),
        }
    }

    /// The suit at a given position, for positions `0..4`.
    pub open spec fn of_index(i: nat) -> Suits {
        if i == 0 {
            Suits::Clubs
        } else if i == 1 {
            Suits::Diamonds
        } else if i == 2 {
            Suits::Hearts
        } else {
            Suits::Spades
        }
    }
}

/// The rank of a card; `Joker` stands outside the thirteen ranks of a deck.
#[derive(Clone, Copy, Debug, PartialEq, Eq, Structural)]
pub enum CardNumber {
    Ace,
    Two,
    Three,
    Four,
    Five,
    Six,
    Seven,
    Eight,
    Nine,
    Ten,
    Jack,
    Queen,
    King,
    Joker,
}

impl CardNumber {
    /// Rank ordinal: Ace is 1, King is 13, the Joker 0.
    pub open spec fn rank(self) -> nat {
        match self {
            CardNumber::Ace => 1,
            CardNumber::Two => 2,
            CardNumber::Three => 3,
            CardNumber::Four => 4,
            CardNumber::Five => 5,
            CardNumber::Six => 6,
            CardNumber::Seven => 7,
            CardNumber::Eight => 8,
            CardNumber::Nine => 9,
            CardNumber::Ten => 10,
            CardNumber::Jack => 11,
            CardNumber::Queen => 12,
            CardNumber::King => 13,
            CardNumber::Joker => 0,
        }
    }

    /// The rank's name, as shown on a card.
    pub open spec fn name(self) -> Seq<char> {
        match self {
            CardNumber::Ace => "Ace"@,
            CardNumber::Two => "Two"@,
            CardNumber::Three => "Three"@,
            CardNumber::Four => "Four"@,
            CardNumber::Five => "Five"@,
            CardNumber::Six => "Six"@,
            CardNumber::Seven => "Seven"@,
            CardNumber::Eight => "Eight"@,
            CardNumber::Nine => "Nine"@,
            CardNumber::Ten => "Ten"@,
            CardNumber::Jack => "Jack"@,
            CardNumber::Queen => "Queen"@,
            CardNumber::King => "King"@,
            CardNumber::Joker => "Joker"@,
        }
    }

    pub fn to_string(&self) -> (r: String)
        ensures
            r@ == self.name(),
    {
        match self {
            CardNumber::Ace => "Ace".to_owned(),
            CardNumber::Two => "Two".to_owned(),
            CardNumber::Three => "Three".to_owned(),
            CardNumber::Four => "Four".to_owned(),
            CardNumber::Five => "Five".to_owned(),
            CardNumber::Six => "Six".to_owned(),
            CardNumber::Seven => "Seven".to_owned(),
            CardNumber::Eight => "Eight".to_owned(),
            CardNumber::Nine => "Nine".to_owned(),
            CardNumber::Ten => "Ten".to_owned(),
            CardNumber::Jack => "Jack".to_owned(),
            CardNumber::Queen => "Queen".to_owned(),
            CardNumber::King => "King".to_owned(),
            CardNumber::Joker => "Joker".to_owned(),
        }
    }

    /// The rank with a given ordinal; any ordinal outside `1..=13` is the Joker.
    pub open spec fn of_rank(n: int) -> CardNumber {
        if n == 1 {
            CardNumber::Ace
        } else if n == 2 {
            CardNumber::Two
        } else if n == 3 {
            CardNumber::Three
        } else if n == 4 {
            CardNumber::Four
        } else if n == 5 {
            CardNumber::Five
        } else if n == 6 {
            CardNumber::Six
        } else if n == 7 {
            CardNumber::Seven
        } else if n == 8 {
            CardNumber::Eight
        } else if n == 9 {
            CardNumber::Nine
        } else if n == 10 {
            CardNumber::Ten
        } else if n == 11 {
            CardNumber::Jack
        } else if n == 12 {
            CardNumber::Queen
        } else if n == 13 {
            CardNumber::King
        } else {
            CardNumber::Joker
        }
    }
}

impl From<usize> for CardNumber {
    fn from(value: usize) -> (r: CardNumber)
        ensures
            r == CardNumber::of_rank(value as int),
    {
        match value {
            1 => CardNumber::Ace,
            2 => CardNumber::Two,
            3 => CardNumber::Three,
            4 => CardNumber::Four,
            5 => CardNumber::Five,
            6 => CardNumber::Six,
            7 => CardNumber::Seven,
            8 => CardNumber::Eight,
            9 => CardNumber::Nine,
            10 => CardNumber::Ten,
            11 => CardNumber::Jack,
            12 => CardNumber::Queen,
            13 => CardNumber::King,
            _ => CardNumber::Joker,
        }
    }
}

impl vstd::std_specs::convert::FromSpecImpl<usize> for CardNumber {
    open spec fn obeys_from_spec() -> bool {
        true
    }

    open spec fn from_spec(v: usize) -> CardNumber {
        CardNumber::of_rank(v as int)
    }
}

/// A playing card: a suit and a rank.
#[derive(Clone, Copy, Debug, PartialEq, Eq, Structural)]
pub struct Card {
    pub suit: Suits,
    pub number: CardNumber,
}

impl Card {
    /// One of the 52 cards of a deck, that is, not a Joker.
    pub open spec fn is_standard(self) -> bool {
        self.number != CardNumber::Joker
    }

    /// Blackjack value: the rank, capped at 10.
    pub open spec fn spec_blackjack_value(self) -> nat {
        if self.number.rank() > 10 {
            10
        } else {
            self.number.rank()
        }
    }

    /// The card's name: "Four of Hearts"; a Joker is "Black Joker" in Clubs
    /// or Spades and "Red Joker" otherwise.
    pub open spec fn text(self) -> Seq<char> {
        if self.number == CardNumber::Joker {
            if self.suit == Suits::Clubs || self.suit == Suits::Spades {
                "Black "@ + self.number.name()
            } else {
                "Red "@ + self.number.name()
            }
        } else {
            self.number.name() + " of "@ + self.suit.name()
        }
    }

    /// The code point of the card's glyph: its suit's block plus its rank.
    pub open spec fn glyph(self) -> u32 {
        (self.suit.glyph_base() + self.number.rank()) as u32
    }

    /// Code of a standard card, in `0..52`: `suit index * 13 + (rank - 1)`.
    pub open spec fn code(self) -> nat {
        (self.suit.index() * 13 + self.number.rank() - 1) as nat
    }

    /// The standard card with a given code, for codes in `0..52`.
    pub open spec fn of_code(code: nat) -> Card {
        Card { suit: Suits::of_index(code / 13), number: CardNumber::of_rank((code % 13 + 1) as int) }
    }

    /// The standard card with code `code`.
    pub fn from_code(code: u8) -> (r: Card)
        requires
            code < 52,
        ensures
            r == Card::of_code(code as nat),
    {
        let suit = if code / 13 == 0 {
            Suits::Clubs
        } else if code / 13 == 1 {
            Suits::Diamonds
        } else if code / 13 == 2 {
            Suits::Hearts
        } else {
            Suits::Spades
        };
        let rank: usize = (code % 13 + 1) as usize;
        Card { suit, number: CardNumber::from(rank) }
    }

    /// The code of a standard card, in `0..52`.
    pub fn to_code(&self) -> (r: u8)
        requires
            self.is_standard(),
        ensures
            r == self.code(),
            r < 52,
    {
        let s: u8 = match self.suit {
            Suits::Clubs => 0,
            Suits::Diamonds => 1,
            Suits::Hearts => 2,
            Suits::Spades => 3,
        };
        s * 13 + (self.value() as u8) - 1
    }

    pub fn new(suit: Suits, number: CardNumber) -> (r: Card)
        ensures
            r.suit == suit,
            r.number == number,
    {
        Card { suit, number }
    }

    pub fn suit(&self) -> (r: Suits)
        ensures
            r == self.suit,
    {
        self.suit
    }

    pub fn number(&self) -> (r: CardNumber)
        ensures
            r == self.number,
    {
        self.number
    }

    /// The rank ordinal of the card (Ace 1 ... King 13, Joker 0).
    pub fn value(&self) -> (r: usize)
        ensures
            r == self.number.rank(),
    {
        match self.number {
            CardNumber::Ace => 1,
            CardNumber::Two => 2,
            CardNumber::Three => 3,
            CardNumber::Four => 4,
            CardNumber::Five => 5,
            CardNumber::Six => 6,
            CardNumber::Seven => 7,
            CardNumber::Eight => 8,
            CardNumber::Nine => 9,
            CardNumber::Ten => 10,
            CardNumber::Jack => 11,
            CardNumber::Queen => 12,
            CardNumber::King => 13,
            CardNumber::Joker => 0,
        }
    }

    /// The card's name, as `text` gives it.
    pub fn to_string(&self) -> (r: String)
        ensures
            r@ == self.text(),
    {
        if self.number == CardNumber::Joker {
            let mut s = if self.suit == Suits::Clubs || self.suit == Suits::Spades {
                "Black ".to_owned()
            } else {
                "Red ".to_owned()
            };
            s.append(self.number.to_string().as_str());
            s
        } else {
            let mut s = self.number.to_string();
            s.append(" of ");
            s.append(self.suit.to_string().as_str());
            s
        }
    }

    /// The card's glyph from the Unicode playing-cards block, as a string.
    pub fn unicode(&self) -> (r: String)
        ensures
            r@ == seq![self.glyph() as char],
    {
        let base: u32 = match self.suit {
            Suits::Spades => 0x1F0A0,
            Suits::Hearts => 0x1F0B0,
            Suits::Diamonds => 0x1F0C0,
            Suits::Clubs => 0x1F0D0,
        };
        let scalar = base + self.value() as u32;
        match char_of_scalar(scalar) {
            Some(c) => char_to_string(c),
            None => String::new(),
        }
    }

    /// The value of the card in Blackjack: its rank, capped at 10.
    pub fn blackjack_value(&self) -> (r: u32)
        ensures
            r == self.spec_blackjack_value(),
    {
        let v = self.value();
        if v > 10 {
            10
        } else {
            v as u32
        }
    }
}

/// The cards of a full deck in their fresh order: suit by suit (Clubs,
/// Diamonds, Hearts, Spades), each from Ace to King.
pub open spec fn full_deck() -> Seq<Card> {
    Seq::new(52, |i: int| Card::of_code(i as nat))
}

/// Codes and standard cards are in one-to-one correspondence.
pub proof fn lemma_code_bijection()
    ensures
        forall|k: nat| k < 52 ==> #[trigger] Card::of_code(k).is_standard() && Card::of_code(k).code() == k,
        forall|c: Card| #[trigger] c.is_standard() ==> c.code() < 52 && Card::of_code(c.code()) == c,
{
}

/// In a sequence without repeats every element occurs once.
pub proof fn lemma_count_distinct<A>(s: Seq<A>, x: A)
    requires
        s.no_duplicates(),
    ensures
        s.to_multiset().count(x) == if s.contains(x) { 1nat } else { 0nat },
    decreases s.len(),
{
    broadcast use to_multiset_build, to_multiset_contains;
    if s.len() > 0 {
        let t = s.drop_last();
        assert(s =~= t.push(s.last()));
        assert(t.no_duplicates());
        lemma_count_distinct(t, x);
        if t.contains(x) {
            let i = choose|i: int| 0 <= i < t.len() && t[i] == x;
            assert(s[i] == x);
            assert(x != s.last());
        }
        if s.contains(x) && x != s.last() {
            let i = choose|i: int| 0 <= i < s.len() && s[i] == x;
            assert(i < t.len());
            assert(t[i] == x);
        }
        assert(s.contains(x) <==> t.contains(x) || x == s.last()) by {
            if x == s.last() {
                assert(s[s.len() - 1] == x);
            }
        }
    }
}

/// A full deck holds each standard card exactly once, and nothing else.
pub proof fn lemma_full_deck_counts(c: Card)
    ensures
        full_deck().len() == 52,
        full_deck().to_multiset().count(c) == if c.is_standard() { 1nat } else { 0nat },
{
    lemma_code_bijection();
    let d = full_deck();
    assert(d.no_duplicates()) by {
        assert forall|i: int, j: int| 0 <= i < d.len() && 0 <= j < d.len() && i != j implies d[i] != d[j] by {
            assert(Card::of_code(i as nat).code() == i);
            assert(Card::of_code(j as nat).code() == j);
        }
    }
    lemma_count_distinct(d, c);
    if c.is_standard() {
        assert(d[c.code() as int] == c);
    } else {
        assert(!d.contains(c)) by {
            if d.contains(c) {
                let i = choose|i: int| 0 <= i < d.len() && d[i] == c;
                assert(Card::of_code(i as nat).is_standard());
            }
        }
    }
}

/// The names of the cards, one per line.
pub open spec fn cards_text(cards: Seq<Card>) -> Seq<char>
    decreases cards.len(),
{
    if cards.len() == 0 {
        Seq::empty()
    } else {
        cards_text(cards.drop_last()) + cards.last().text() + "\n"@
    }
}

/// The undealt cards; the last card of the sequence is the top of the deck.
#[derive(Clone, Debug, PartialEq, Eq)]
pub struct Deck {
    cards: Vec<Card>,
}

impl View for Deck {
    type V = Seq<Card>;

    closed spec fn view(&self) -> Seq<Card> {
        self.cards@
    }
}

impl Deck {
    /// A full deck of 52 cards in suit-major, rank-minor order.
    pub fn new() -> (r: Deck)
        ensures
            r@ == full_deck(),
    {
        let mut cards: Vec<Card> = Vec::new();
        let mut code: u8 = 0;
        while code < 52
            invariant
                code <= 52,
                cards@ == full_deck().subrange(0, code as int),
            decreases 52 - code,
        {
            let card = Card::from_code(code);
            cards.push(card);
            code = code + 1;
        }
        Deck { cards }
    }

    /// A deck holding exactly `cards`, in that order.
    pub fn new_set(cards: Vec<Card>) -> (r: Deck)
        ensures
            r@ == cards@,
    {
        Deck { cards }
    }

    /// The cards still in the deck, bottom first.
    pub fn cards(&self) -> (r: &Vec<Card>)
        ensures
            r@ == self@,
    {
        &self.cards
    }

    /// Number of cards still in the deck.
    pub fn len(&self) -> (r: usize)
        ensures
            r == self@.len(),
    {
        self.cards.len()
    }

    pub fn is_empty(&self) -> (r: bool)
        ensures
            r == (self@.len() == 0),
    {
        self.cards.len() == 0
    }

    /// The deck as text: a rule of twenty `=`, each card's name on its own
    /// line from the bottom of the deck up, and a closing rule.
    pub fn to_string(&self) -> (r: String)
        ensures
            r@ == "\n====================\n"@ + cards_text(self@) + "===================="@,
    {
        let mut s = "\n====================\n".to_owned();
        let mut i: usize = 0;
        while i < self.cards.len()
            invariant
                i <= self.cards@.len(),
                s@ == "\n====================\n"@ + cards_text(self.cards@.subrange(0, i as int)),
            decreases self.cards@.len() - i,
        {
            proof {
                assert(self.cards@.subrange(0, i + 1).drop_last() =~= self.cards@.subrange(0, i as int));
            }
            s.append(self.cards[i].to_string().as_str());
            s.append("\n");
            i = i + 1;
        }
        proof {
            assert(self.cards@.subrange(0, i as int) =~= self.cards@);
        }
        s.append("====================");
        s
    }

    /// Puts the cards in a random order drawn from `rng`; the deck keeps the
    /// same cards.
    pub fn shuffle(&mut self, rng: &mut StdRng)
        ensures
            final(self)@.to_multiset() == old(self)@.to_multiset(),
    {
        shuffle_cards(&mut self.cards, rng);
    }

    /// Takes the top `num_cards` cards off the deck and returns them in their
    /// order in the deck; fails, leaving the deck as it was, when fewer
    /// remain.
    pub fn deal(&mut self, num_cards: usize) -> (r: Result<Vec<Card>, BlackjackError>)
        ensures
            num_cards <= old(self)@.len() ==> r is Ok,
            r matches Ok(hand) ==> {
                let cut = old(self)@.len() - num_cards;
                &&& final(self)@ == old(self)@.subrange(0, cut)
                &&& hand@ == old(self)@.subrange(cut, old(self)@.len() as int)
            },
            num_cards > old(self)@.len() ==> r == Err::<Vec<Card>, BlackjackError>(
                BlackjackError::DeckUnderflow { requested: num_cards, remaining: old(self)@.len() as usize },
            ) && final(self)@ == old(self)@,
    {
        let remaining = self.cards.len();
        if num_cards > remaining {
            return Err(BlackjackError::DeckUnderflow { requested: num_cards, remaining });
        }
        Ok(self.cards.split_off(remaining - num_cards))
    }
}

} // verus!

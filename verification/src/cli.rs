//! Command line arguments: what they ask for and the shoe they describe.

use vstd::prelude::*;

use crate::card;
use crate::card::{Card, CardReading};
use crate::csv_text;
use crate::shoe;
use crate::shoe::{Shoe, ShoeError, DEFAULT_DECKS};
use crate::text;

verus! {

/// What the listed cards are.
#[derive(Debug, Clone, Copy, PartialEq, Eq, Structural)]
pub enum CardSource {
    /// Cards that have left a full shoe.
    Consumed,
    /// All cards that are left.
    Remaining,
}

/// The arguments of `analyze`.
#[derive(Debug, PartialEq, Eq)]
pub struct AnalyzeInput {
    pub source: CardSource,
    pub cards: Vec<Card>,
}

/// What the arguments ask for.
#[derive(Debug, PartialEq, Eq)]
pub enum Command {
    /// The weights and values of the next round.
    Analyze(AnalyzeInput),
}

/// Why arguments are refused.
#[derive(Debug, PartialEq, Eq)]
pub enum CliError {
    MissingCommand,
    UnknownCommand(String),
    MissingCardSource,
    UnknownCardSource(String),
    InvalidCard(String),
    /// The cards do not describe a shoe.
    Shoe(ShoeError),
    /// The source is not supported.
    UnsupportedCardSource(CardSource),
}

impl From<ShoeError> for CliError {
    fn from(error: ShoeError) -> (result: CliError) {
        CliError::Shoe(error)
    }
}

impl vstd::std_specs::convert::FromSpecImpl<ShoeError> for CliError {
    open spec fn obeys_from_spec() -> bool {
        true
    }

    open spec fn from_spec(error: ShoeError) -> CliError {
        CliError::Shoe(error)
    }
}

/// The cards of a list of texts, or the first text that is no card.
pub enum CardList {
    Cards(Seq<Card>),
    Unreadable(Seq<char>),
}

/// Reads a list of texts as cards.
pub open spec fn card_list(texts: Seq<Seq<char>>) -> CardList
    decreases texts.len(),
{
    if texts.len() == 0 {
        CardList::Cards(Seq::empty())
    } else {
        match card_list(texts.drop_last()) {
            CardList::Unreadable(shown) => CardList::Unreadable(shown),
            CardList::Cards(cards) => match card::card_reading(texts.last()) {
                CardReading::Card(card) => CardList::Cards(cards.push(card)),
                _ => CardList::Unreadable(texts.last()),
            },
        }
    }
}

/// Once a text is no card, what follows does not matter.
pub proof fn lemma_unreadable_stays(texts: Seq<Seq<char>>, n: int)
    requires
        0 <= n <= texts.len(),
        card_list(texts.take(n)) is Unreadable,
    ensures
        card_list(texts) == card_list(texts.take(n)),
    decreases texts.len() - n,
{
    if n < texts.len() {
        assert(texts.take(n + 1).drop_last() =~= texts.take(n));
        lemma_unreadable_stays(texts, n + 1);
    } else {
        assert(texts.take(n) =~= texts);
    }
}

/// The source that a word names.
pub open spec fn source_named(word: Seq<char>) -> Option<CardSource> {
    if word == "consumed"@ {
        Some(CardSource::Consumed)
    } else if word == "remaining"@ {
        Some(CardSource::Remaining)
    } else {
        None
    }
}

/// Whether a result is what the arguments ask for.
pub open spec fn answers(result: Result<Command, CliError>, args: Seq<Seq<char>>) -> bool {
    if args.len() == 0 {
        result == Err::<Command, CliError>(CliError::MissingCommand)
    } else if args[0] != "analyze"@ {
        result matches Err(CliError::UnknownCommand(word)) && word@ == args[0]
    } else if args.len() == 1 {
        result == Err::<Command, CliError>(CliError::MissingCardSource)
    } else {
        match source_named(args[1]) {
            None => result matches Err(CliError::UnknownCardSource(word)) && word@ == args[1],
            Some(source) => match card_list(args.skip(2)) {
                CardList::Unreadable(shown) => result matches Err(CliError::InvalidCard(word))
                    && word@ == shown,
                CardList::Cards(cards) => result matches Ok(Command::Analyze(input))
                    && input.source == source && input.cards@ == cards,
            },
        }
    }
}

/// Reads the arguments after the program's name.
pub fn parse_args(args: &[String]) -> (result: Result<Command, CliError>)
    ensures
        answers(result, csv_text::views(args@)),
{
    let ghost words = csv_text::views(args@);
    if args.len() == 0 {
        return Err(CliError::MissingCommand);
    }
    assert(words[0] == args@[0]@);
    if !text::equal(args[0].as_str(), "analyze") {
        return Err(CliError::UnknownCommand(args[0].clone()));
    }
    if args.len() == 1 {
        return Err(CliError::MissingCardSource);
    }
    assert(words[1] == args@[1]@);
    let source: CardSource = if text::equal(args[1].as_str(), "consumed") {
        CardSource::Consumed
    } else if text::equal(args[1].as_str(), "remaining") {
        CardSource::Remaining
    } else {
        return Err(CliError::UnknownCardSource(args[1].clone()));
    };
    let mut cards: Vec<Card> = Vec::new();
    let mut i: usize = 2;
    let ghost texts = words.skip(2);
    assert(texts.take(0) =~= Seq::empty());
    while i < args.len()
        invariant
            2 <= i <= args.len(),
            words == csv_text::views(args@),
            texts == words.skip(2),
            words.len() > 1,
            words[0] == "analyze"@,
            source_named(words[1]) == Some(source),
            card_list(texts.take(i - 2)) == CardList::Cards(cards@),
        decreases args.len() - i,
    {
        proof {
            assert(texts.take(i - 1).drop_last() =~= texts.take(i - 2));
            assert(texts.take(i - 1).last() == args@[i as int]@);
        }
        match Card::parse(args[i].as_str()) {
            Ok(card) => {
                cards.push(card);
            },
            Err(_) => {
                proof {
                    lemma_unreadable_stays(texts, i - 1);
                }
                return Err(CliError::InvalidCard(args[i].clone()));
            },
        }
        i = i + 1;
    }
    assert(texts.take(i - 2) =~= texts);
    Ok(Command::Analyze(AnalyzeInput { source, cards }))
}

/// The shoe that the arguments describe.
pub fn build_shoe(input: &AnalyzeInput) -> (result: Result<Shoe, CliError>)
    ensures
        match input.source {
            CardSource::Consumed => match result {
                Ok(built) => shoe::full_shoe(8).holds(input.cards@) && built@ == shoe::full_shoe(
                    8,
                ).without_all(input.cards@),
                Err(CliError::Shoe(error)) => shoe::full_shoe(8).refuses_removal(
                    input.cards@,
                    error,
                ),
                Err(_) => false,
            },
            CardSource::Remaining => match result {
                Ok(built) => built@ == shoe::exact_shoe(8, input.cards@) && built@.wf(),
                Err(CliError::Shoe(error)) => shoe::refuses_remaining(8, input.cards@, error),
                Err(_) => false,
            },
        },
{
    match input.source {
        CardSource::Consumed => {
            let mut built: Shoe = Shoe::default();
            match built.remove_many(input.cards.as_slice()) {
                Ok(_) => Ok(built),
                Err(error) => Err(CliError::from(error)),
            }
        },
        CardSource::Remaining => match Shoe::from_remaining(DEFAULT_DECKS, input.cards.as_slice()) {
            Ok(built) => Ok(built),
            Err(error) => Err(CliError::from(error)),
        },
    }
}

} // verus!

//! The options of the tools that generate and replay rounds: `--name=value` after a path.

use vstd::prelude::*;

use crate::baccarat::day::DayConfig;
use crate::baccarat::risk;
use crate::baccarat::risk::{KellyError, KellyPolicy, StakeSizingStrategy};
use crate::baccarat::simulation;
use crate::baccarat::simulation::BaccaratSimulationConfig;
use crate::csv_text;
use crate::number;
use crate::number::Number;
use crate::scale::Scale;
use crate::text;

verus! {

/// The position of the first equals sign from `i` on; the length where there is none.
pub open spec fn equals_sign(s: Seq<char>, i: int) -> int
    decreases s.len() - i,
{
    if i >= s.len() {
        s.len() as int
    } else if s[i] == '=' {
        i
    } else {
        equals_sign(s, i + 1)
    }
}

/// The name and the value of an option; none where it has no equals sign.
pub open spec fn option_parts(s: Seq<char>) -> Option<(Seq<char>, Seq<char>)> {
    let at = equals_sign(s, 0);
    if at < s.len() {
        Some((s.subrange(0, at), s.subrange(at + 1, s.len() as int)))
    } else {
        None
    }
}

fn split_option(argument: &str) -> (parts: Option<(String, String)>)
    ensures
        match (parts, option_parts(argument@)) {
            (Some((name, value)), Some((left, right))) => name@ == left && value@ == right,
            (None, None) => true,
            _ => false,
        },
{
    let chars: Vec<char> = text::chars_of(argument);
    let mut at: usize = 0;
    while at < chars.len() && chars[at] != '='
        invariant
            at <= chars.len(),
            equals_sign(chars@, at as int) == equals_sign(chars@, 0),
        decreases chars.len() - at,
    {
        at = at + 1;
    }
    if at < chars.len() {
        Some((text::text_of(&chars, 0, at), text::text_of(&chars, at + 1, chars.len())))
    } else {
        None
    }
}

/// How the generator is called, after a message.
pub open spec fn generator_usage(message: Seq<char>) -> Seq<char> {
    message
        + "\n用法：cargo run --release --bin generate_baccarat_csv -- <output.csv> \\\n+  [--shoes=100] [--decks=8] [--rounds-per-shoe=60] [--seed=20260902] \\\n+  [--start-session-id=1000000]"@
}

fn generator_usage_text(message: &str) -> (shown: String)
    ensures
        shown@ == generator_usage(message@),
{
    message.to_owned().concat(
        "\n用法：cargo run --release --bin generate_baccarat_csv -- <output.csv> \\\n+  [--shoes=100] [--decks=8] [--rounds-per-shoe=60] [--seed=20260902] \\\n+  [--start-session-id=1000000]",
    )
}

/// What the generator is asked for.
#[derive(Debug)]
pub struct GeneratorConfig {
    /// Where the rounds are written.
    pub output: String,
    pub simulation: BaccaratSimulationConfig,
}

/// The parameters of a simulation where no option sets another.
pub open spec fn default_simulation() -> BaccaratSimulationConfig {
    BaccaratSimulationConfig {
        shoes: 100,
        decks: 8,
        max_rounds_per_shoe: 60,
        seed: 20_260_902,
        start_session_id: 1_000_000,
    }
}

/// What options say: parameters, or a message about the first that is refused.
pub enum OptionReading {
    Parameters(BaccaratSimulationConfig),
    Refused(Seq<char>),
}

/// What is said of a value that is no number.
pub open spec fn integer_message(name: Seq<char>, value: Seq<char>) -> Seq<char> {
    "参数 "@ + name + " 不是有效整数："@ + value
}

/// What an option with a whole number says: parameters that depend on the number, or that it is
/// no number up to the limit.
pub open spec fn integer_option(
    name: Seq<char>,
    value: Seq<char>,
    limit: nat,
    set: spec_fn(nat) -> BaccaratSimulationConfig,
) -> OptionReading {
    match text::parsed_number(value, limit) {
        Some(n) => OptionReading::Parameters(set(n)),
        None => OptionReading::Refused(integer_message(name, value)),
    }
}

/// The parameters with one more option.
pub open spec fn with_option(
    given: BaccaratSimulationConfig,
    argument: Seq<char>,
) -> OptionReading {
    match option_parts(argument) {
        None => OptionReading::Refused(
            generator_usage("参数必须使用 --name=value 格式："@ + argument),
        ),
        Some((name, value)) => if name == "--shoes"@ {
            integer_option(
                name,
                value,
                u64::MAX as nat,
                |n: nat| BaccaratSimulationConfig { shoes: n as u64, ..given },
            )
        } else if name == "--decks"@ {
            integer_option(
                name,
                value,
                u8::MAX as nat,
                |n: nat| BaccaratSimulationConfig { decks: n as u8, ..given },
            )
        } else if name == "--rounds-per-shoe"@ {
            integer_option(
                name,
                value,
                u32::MAX as nat,
                |n: nat| BaccaratSimulationConfig { max_rounds_per_shoe: n as u32, ..given },
            )
        } else if name == "--seed"@ {
            integer_option(
                name,
                value,
                u64::MAX as nat,
                |n: nat| BaccaratSimulationConfig { seed: n as u64, ..given },
            )
        } else if name == "--start-session-id"@ {
            integer_option(
                name,
                value,
                u64::MAX as nat,
                |n: nat| BaccaratSimulationConfig { start_session_id: n as u64, ..given },
            )
        } else {
            OptionReading::Refused(generator_usage("未知参数："@ + name))
        },
    }
}

/// What the first options say.
pub open spec fn options_reading(options: Seq<Seq<char>>) -> OptionReading
    decreases options.len(),
{
    if options.len() == 0 {
        OptionReading::Parameters(default_simulation())
    } else {
        match options_reading(options.drop_last()) {
            OptionReading::Parameters(given) => with_option(given, options.last()),
            OptionReading::Refused(message) => OptionReading::Refused(message),
        }
    }
}

proof fn lemma_refusal_stays(options: Seq<Seq<char>>, n: int)
    requires
        0 <= n <= options.len(),
        options_reading(options.take(n)) is Refused,
    ensures
        options_reading(options) == options_reading(options.take(n)),
    decreases options.len() - n,
{
    if n < options.len() {
        assert(options.take(n + 1).drop_last() =~= options.take(n));
        lemma_refusal_stays(options, n + 1);
    } else {
        assert(options.take(n) =~= options);
    }
}

/// Whether a result is what the arguments of the generator ask for: a path first, then options,
/// and parameters that can be dealt.
pub open spec fn asks_generator(
    result: Result<GeneratorConfig, String>,
    args: Seq<Seq<char>>,
) -> bool {
    if args.len() == 0 {
        result matches Err(message) && message@ == generator_usage("缺少输出 CSV 路径"@)
    } else {
        match options_reading(args.skip(1)) {
            OptionReading::Refused(told) => result matches Err(message) && message@ == told,
            OptionReading::Parameters(given) => match simulation::config_problem(given) {
                Some(told) => result matches Err(message) && message@ == told,
                None => result matches Ok(config) && config.output@ == args[0]
                    && config.simulation == given,
            },
        }
    }
}

fn read_integer(name: &String, value: &String, limit: u64) -> (result: Result<u64, String>)
    ensures
        match text::parsed_number(value@, limit as nat) {
            Some(n) => result == Ok::<u64, String>(n as u64) && n <= limit,
            None => result matches Err(message) && message@ == integer_message(name@, value@),
        },
{
    let chars: Vec<char> = text::chars_of(value.as_str());
    match text::parse_number(&chars, limit) {
        Some(n) => Ok(n),
        None => {
            let mut message: String = "参数 ".to_owned();
            message.append(name.as_str());
            message.append(" 不是有效整数：");
            message.append(value.as_str());
            Err(message)
        },
    }
}

fn read_generator_option(given: BaccaratSimulationConfig, argument: &str) -> (result: Result<
    BaccaratSimulationConfig,
    String,
>)
    ensures
        match (result, with_option(given, argument@)) {
            (Ok(config), OptionReading::Parameters(told)) => config == told,
            (Err(message), OptionReading::Refused(told)) => message@ == told,
            _ => false,
        },
{
    let (name, value): (String, String) = match split_option(argument) {
        Some(parts) => parts,
        None => {
            let message: String = "参数必须使用 --name=value 格式：".to_owned().concat(argument);
            return Err(generator_usage_text(message.as_str()));
        },
    };
    let mut config: BaccaratSimulationConfig = given;
    if text::equal(name.as_str(), "--shoes") {
        match read_integer(&name, &value, u64::MAX) {
            Ok(n) => {
                config.shoes = n;
            },
            Err(message) => {
                return Err(message);
            },
        }
    } else if text::equal(name.as_str(), "--decks") {
        match read_integer(&name, &value, u8::MAX as u64) {
            Ok(n) => {
                config.decks = n as u8;
            },
            Err(message) => {
                return Err(message);
            },
        }
    } else if text::equal(name.as_str(), "--rounds-per-shoe") {
        match read_integer(&name, &value, u32::MAX as u64) {
            Ok(n) => {
                config.max_rounds_per_shoe = n as u32;
            },
            Err(message) => {
                return Err(message);
            },
        }
    } else if text::equal(name.as_str(), "--seed") {
        match read_integer(&name, &value, u64::MAX) {
            Ok(n) => {
                config.seed = n;
            },
            Err(message) => {
                return Err(message);
            },
        }
    } else if text::equal(name.as_str(), "--start-session-id") {
        match read_integer(&name, &value, u64::MAX) {
            Ok(n) => {
                config.start_session_id = n;
            },
            Err(message) => {
                return Err(message);
            },
        }
    } else {
        let message: String = "未知参数：".to_owned().concat(name.as_str());
        return Err(generator_usage_text(message.as_str()));
    }
    Ok(config)
}

/// Reads the arguments of the generator after the program's name.
pub fn parse_generator_args(args: &[String]) -> (result: Result<GeneratorConfig, String>)
    ensures
        asks_generator(result, csv_text::views(args@)),
{
    let ghost words = csv_text::views(args@);
    if args.len() == 0 {
        return Err(generator_usage_text("缺少输出 CSV 路径"));
    }
    let mut given: BaccaratSimulationConfig = BaccaratSimulationConfig {
        shoes: 100,
        decks: 8,
        max_rounds_per_shoe: 60,
        seed: 20_260_902,
        start_session_id: 1_000_000,
    };
    let ghost options = words.skip(1);
    let mut i: usize = 1;
    assert(options.take(0) =~= Seq::empty());
    while i < args.len()
        invariant
            1 <= i <= args.len(),
            words == csv_text::views(args@),
            options == words.skip(1),
            options_reading(options.take(i - 1)) == OptionReading::Parameters(given),
        decreases args.len() - i,
    {
        proof {
            assert(options.take(i as int).drop_last() =~= options.take(i - 1));
            assert(options.take(i as int).last() == args@[i as int]@);
        }
        match read_generator_option(given, args[i].as_str()) {
            Ok(config) => {
                given = config;
            },
            Err(message) => {
                proof {
                    lemma_refusal_stays(options, i as int);
                }
                return Err(message);
            },
        }
        i = i + 1;
    }
    assert(options.take(i - 1) =~= options);
    match BaccaratSimulationConfig::new(
        given.shoes,
        given.decks,
        given.max_rounds_per_shoe,
        given.seed,
        given.start_session_id,
    ) {
        Ok(simulation) => Ok(GeneratorConfig { output: args[0].clone(), simulation }),
        Err(error) => Err(error.to_string()),
    }
}

/// How the replay of a day is called, after a message.
pub open spec fn day_usage(message: Seq<char>) -> Seq<char> {
    message
        + "\n用法：replay_csv <csv-path> [--rebate=0.015] [--minimum-ev=0] [--bankroll=10000] [--max-fraction=1] [--max-round-stake=10000] [--table-limit=10000]"@
}

/// Tells how the replay of a day is called, after a message.
pub fn day_usage_text(message: &str) -> (shown: String)
    ensures
        shown@ == day_usage(message@),
{
    message.to_owned().concat(
        "\n用法：replay_csv <csv-path> [--rebate=0.015] [--minimum-ev=0] [--bankroll=10000] [--max-fraction=1] [--max-round-stake=10000] [--table-limit=10000]",
    )
}

/// Splits an option of the replay of a day into its name and the text of its number.
pub fn read_day_option(argument: &str) -> (result: Result<(String, String), String>)
    ensures
        match (result, option_parts(argument@)) {
            (Ok((name, value)), Some((left, right))) => name@ == left && value@ == right,
            (Err(message), None) => message@ == day_usage(
                "参数必须使用 --name=value："@ + argument@,
            ),
            _ => false,
        },
{
    match split_option(argument) {
        Some(parts) => Ok(parts),
        None => {
            let message: String = "参数必须使用 --name=value：".to_owned().concat(argument);
            Err(day_usage_text(message.as_str()))
        },
    }
}

/// Tells that the value of an option of the replay of a day is no number.
pub fn day_number_refusal(name: &str, value: &str) -> (shown: String)
    ensures
        shown@ == day_usage("参数 "@ + name@ + " 不是有效数字："@ + value@),
{
    let mut message: String = "参数 ".to_owned();
    message.append(name);
    message.append(" 不是有效数字：");
    message.append(value);
    day_usage_text(message.as_str())
}

impl<E: Number> DayConfig<E> {
    /// The settings where no option sets another: a rebate of nine in a thousand, no threshold,
    /// a bankroll of ten thousand and no limit below it.
    pub open spec fn standard() -> DayConfig<E> {
        DayConfig {
            rebate_rate: number::quotient(number::small::<E>(9), number::small::<E>(1000)),
            minimum_ev: number::small::<E>(0),
            bankroll: number::small::<E>(10_000),
            max_fraction: number::small::<E>(1),
            max_round_stake: number::small::<E>(10_000),
            table_limit: number::small::<E>(10_000),
        }
    }

    /// The settings with one more option; none where nothing has its name.
    pub open spec fn with_option(self, name: Seq<char>, value: E) -> Option<DayConfig<E>> {
        if name == "--rebate"@ {
            Some(DayConfig { rebate_rate: value, ..self })
        } else if name == "--minimum-ev"@ {
            Some(DayConfig { minimum_ev: value, ..self })
        } else if name == "--bankroll"@ {
            Some(DayConfig { bankroll: value, ..self })
        } else if name == "--max-fraction"@ {
            Some(DayConfig { max_fraction: value, ..self })
        } else if name == "--max-round-stake"@ {
            Some(DayConfig { max_round_stake: value, ..self })
        } else if name == "--table-limit"@ {
            Some(DayConfig { table_limit: value, ..self })
        } else {
            None
        }
    }

    /// Gives the settings where no option sets another.
    pub fn new() -> (config: DayConfig<E>)
        requires
            number::arithmetic::<E>(),
        ensures
            config == Self::standard(),
    {
        let amount: E = E::from(10_000u32);
        DayConfig {
            rebate_rate: E::from(9u32) / E::from(1000u32),
            minimum_ev: E::from(0u32),
            bankroll: amount,
            max_fraction: E::from(1u32),
            max_round_stake: amount,
            table_limit: amount,
        }
    }

    /// Sets what an option names.
    pub fn set_option(self, name: &str, value: E) -> (result: Result<DayConfig<E>, String>)
        ensures
            match (result, self.with_option(name@, value)) {
                (Ok(config), Some(told)) => config == told,
                (Err(message), None) => message@ == day_usage("未知参数："@ + name@),
                _ => false,
            },
    {
        let mut config: DayConfig<E> = self;
        if text::equal(name, "--rebate") {
            config.rebate_rate = value;
        } else if text::equal(name, "--minimum-ev") {
            config.minimum_ev = value;
        } else if text::equal(name, "--bankroll") {
            config.bankroll = value;
        } else if text::equal(name, "--max-fraction") {
            config.max_fraction = value;
        } else if text::equal(name, "--max-round-stake") {
            config.max_round_stake = value;
        } else if text::equal(name, "--table-limit") {
            config.table_limit = value;
        } else {
            let message: String = "未知参数：".to_owned().concat(name);
            return Err(day_usage_text(message.as_str()));
        }
        Ok(config)
    }

    /// What is wrong with the settings, if anything is.
    pub open spec fn problem(self, scale: Scale<E>) -> Option<DayConfigProblem<E>> {
        if !scale.fraction(self.rebate_rate) {
            Some(DayConfigProblem::RebateRate)
        } else if !scale.finite(self.minimum_ev) {
            Some(DayConfigProblem::MinimumEv)
        } else if !scale.positive(self.bankroll) {
            Some(DayConfigProblem::Bankroll)
        } else {
            match risk::policy_error(
                scale,
                StakeSizingStrategy::FullKelly,
                self.max_fraction,
                self.max_round_stake,
                self.table_limit,
            ) {
                Some(error) => Some(DayConfigProblem::Stakes(error)),
                None => None,
            }
        }
    }

    /// Checks the settings.
    pub fn check(self, scale: Scale<E>) -> (problem: Option<DayConfigProblem<E>>)
        requires
            number::arithmetic::<E>(),
        ensures
            problem == self.problem(scale),
    {
        if !scale.is_fraction(self.rebate_rate) {
            return Some(DayConfigProblem::RebateRate);
        }
        if !scale.is_finite(self.minimum_ev) {
            return Some(DayConfigProblem::MinimumEv);
        }
        if !scale.is_positive(self.bankroll) {
            return Some(DayConfigProblem::Bankroll);
        }
        match KellyPolicy::new(
            scale,
            self.max_fraction,
            self.max_round_stake,
            self.table_limit,
        ) {
            Ok(_) => None,
            Err(error) => Some(DayConfigProblem::Stakes(error)),
        }
    }
}

/// What is wrong with the settings of the replay of a day.
#[derive(Debug, Clone, Copy, PartialEq, Eq)]
pub enum DayConfigProblem<E> {
    RebateRate,
    MinimumEv,
    Bankroll,
    Stakes(KellyError<E>),
}

impl<E: Copy> DayConfigProblem<E> {
    /// The message of the problem, given that of a stake error.
    pub open spec fn message(self, stakes: Seq<char>) -> Seq<char> {
        match self {
            DayConfigProblem::RebateRate => "--rebate 必须是 0..=1 内的有限小数"@,
            DayConfigProblem::MinimumEv => "--minimum-ev 必须是有限数字"@,
            DayConfigProblem::Bankroll => "--bankroll 必须是有限正数"@,
            DayConfigProblem::Stakes(_) => stakes,
        }
    }

    /// The message of the problem, given that of a stake error.
    pub fn to_string(self, stakes: &str) -> (shown: String)
        ensures
            shown@ == self.message(stakes@),
    {
        match self {
            DayConfigProblem::RebateRate => "--rebate 必须是 0..=1 内的有限小数".to_owned(),
            DayConfigProblem::MinimumEv => "--minimum-ev 必须是有限数字".to_owned(),
            DayConfigProblem::Bankroll => "--bankroll 必须是有限正数".to_owned(),
            DayConfigProblem::Stakes(_) => stakes.to_owned(),
        }
    }
}

} // verus!

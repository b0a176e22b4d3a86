use game_ev_engine::baccarat::composition::{
    CompositionTable, BANKER_WINS, BIG, COMPOSITION_COUNT, PLAYER_WINS, SMALL, TIES,
};
use game_ev_engine::baccarat::enumerate::enumerate_main_outcomes_by_card;
use game_ev_engine::baccarat::probability::falling_factorial;
use game_ev_engine::{
    calculate_main_outcomes, Card, OutcomeWeights, ProbabilityError, Rank, Shoe, Suit,
};

fn card(input: &str) -> Card {
    input.parse().expect("the card is valid")
}

#[test]
fn four_card_naturals_are_extended_to_the_six_card_denominator() {
    // 两副牌中只保留三种 4 点牌，每种两个副本，共六张牌。
    // 任意前四张都会让庄闲各得到 4 + 4 = Natural 8，所以一定四张结束并和局。
    let retained = [card("4C"), card("4D"), card("4H")];
    let mut removed = Vec::with_capacity(98);

    for rank in Rank::ALL {
        for suit in Suit::ALL {
            let candidate = Card::new(rank, suit);
            if !retained.contains(&candidate) {
                // 当前是两副牌，因此每一种不保留的具体牌都需要扣除两次。
                removed.extend([candidate; 2]);
            }
        }
    }

    let mut shoe = Shoe::new(2).expect("两副牌必须是合法牌靴");
    shoe.remove_many(&removed).expect("测试牌必须能够扣除");
    let initial_shoe = shoe.clone();

    let weights = enumerate_main_outcomes_by_card(&shoe).expect("六张测试牌必须能够完成枚举");

    assert_eq!(shoe, initial_shoe);
    // 六张物理牌的共同分母为 6! = 720；四张自然牌终局通过剩余
    // 两张牌的 2! 种排列补齐后，720 条六张序列全部属于和局。
    assert_eq!(weights.player_weight(), 0);
    assert_eq!(weights.banker_weight(), 0);
    assert_eq!(weights.tie_weight(), 720);
    assert_eq!(weights.total_weight(), 720);
}

#[test]
fn point_aggregation_matches_concrete_card_enumeration() {
    let retained = [
        card("AS"),
        card("2C"),
        card("3D"),
        card("4H"),
        card("5S"),
        card("6C"),
    ];
    let mut removed = Vec::new();

    // 构造一个只有六张牌的小牌靴。原本是两副牌：retained 中每种牌保留
    // 一张，其他所有具体牌两张都扣掉。
    for rank in Rank::ALL {
        for suit in Suit::ALL {
            let candidate = Card::new(rank, suit);
            let copies_to_remove = if retained.contains(&candidate) { 1 } else { 2 };

            for _ in 0..copies_to_remove {
                removed.push(candidate);
            }
        }
    }

    let mut shoe = Shoe::new(2).expect("两副牌必须是合法牌靴");
    shoe.remove_many(&removed).expect("测试牌必须能够扣除");
    // 保存初始状态，最后验证两套枚举算法都只借用输入，没有修改真实牌靴。
    let initial_shoe = shoe.clone();

    let point_weights = calculate_main_outcomes(&shoe).expect("点数聚合枚举应该成功");
    let card_weights = enumerate_main_outcomes_by_card(&shoe).expect("具体牌枚举应该成功");

    assert_eq!(point_weights, card_weights);
    assert_eq!(shoe, initial_shoe);
}

#[test]
fn coefficient_table_contains_every_six_card_composition() {
    let table = CompositionTable::new();
    assert_eq!(table.entries().len(), COMPOSITION_COUNT);
    assert!(table.entries().iter().all(|coefficient| {
        let all = coefficient.permutations[PLAYER_WINS]
            + coefficient.permutations[BANKER_WINS]
            + coefficient.permutations[TIES];
        coefficient.multiplicities.iter().sum::<u8>() == 6
            && all > 0
            && coefficient.permutations[SMALL] + coefficient.permutations[BIG] == all
    }));
}

#[test]
fn all_zero_point_cards_produce_only_ties() {
    let retained = [
        card("10C"),
        card("10D"),
        card("10H"),
        card("10S"),
        card("JC"),
        card("JD"),
    ];
    let mut removed = Vec::new();

    for rank in Rank::ALL {
        for suit in Suit::ALL {
            let candidate = Card::new(rank, suit);
            let copies_to_remove = if retained.contains(&candidate) { 1 } else { 2 };
            for _ in 0..copies_to_remove {
                removed.push(candidate);
            }
        }
    }

    let mut shoe = Shoe::new(2).expect("两副牌必须是合法牌靴");
    shoe.remove_many(&removed).expect("测试牌必须能够扣除");
    let initial_shoe = shoe.clone();
    let weights = calculate_main_outcomes(&shoe).expect("六张 0 点牌应能够完成枚举");

    assert_eq!(shoe, initial_shoe);
    assert_eq!(weights.player_weight(), 0);
    assert_eq!(weights.banker_weight(), 0);
    assert_eq!(weights.tie_weight(), 720);
    assert_eq!(weights.total_weight(), 720);
    assert_eq!(weights.banker_win_on_six_weight(), 0);
}

#[test]
fn full_shoe_produces_a_complete_probability_distribution() {
    let weights =
        calculate_main_outcomes(&Shoe::default()).expect("完整八副牌应能够完成主注枚举");

    assert!(weights.weights_sum_to_total());
    assert!(
        (weights.player_probability::<f64>()
            + weights.banker_probability::<f64>()
            + weights.tie_probability::<f64>()
            - 1.0)
            .abs()
            < 1e-15
    );
    assert!(weights.banker_probability::<f64>() > weights.player_probability::<f64>());
    assert!(weights.banker_win_on_six_weight() > 0);
    assert!(weights.banker_win_on_six_weight() <= weights.banker_weight());
}

#[test]
fn exact_weight_foundation_uses_a_shared_six_card_denominator() {
    assert_eq!(falling_factorial(5, 0), 1);
    assert_eq!(falling_factorial(5, 1), 5);
    assert_eq!(falling_factorial(5, 3), 60);
    assert_eq!(falling_factorial(416, 6), 4_998_398_275_503_360);

    let weights =
        OutcomeWeights::from_weights(6, 360, 240, 120).expect("测试权重之和应等于六张共同分母");
    assert_eq!(weights.total_weight(), 720);
    assert_eq!(weights.banker_win_on_six_weight(), 0);
    assert!(weights.weights_sum_to_total());
    assert!((weights.player_probability::<f64>() - 0.5).abs() < f64::EPSILON);
    assert!(
        (weights.player_probability::<f64>()
            + weights.banker_probability::<f64>()
            + weights.tie_probability::<f64>()
            - 1.0)
            .abs()
            < 1e-15
    );

    assert_eq!(
        OutcomeWeights::from_weights(5, 1, 1, 1),
        Err(ProbabilityError::NotEnoughCards { remaining: 5 })
    );
    assert_eq!(
        OutcomeWeights::from_weights(6, 1, 2, 3),
        Err(ProbabilityError::WeightSumMismatch {
            expected: 720,
            actual: 6,
        })
    );

    let detailed = OutcomeWeights::from_detailed_weights(6, 360, 240, 120, 60)
        .expect("庄六点获胜权重应当可以作为庄家权重的子集");
    assert_eq!(detailed.banker_win_on_six_weight(), 60);
    assert!((detailed.banker_win_on_six_probability::<f64>() - 1.0 / 12.0).abs() < 1e-15);

    assert_eq!(
        OutcomeWeights::from_detailed_weights(6, 360, 240, 120, 241),
        Err(ProbabilityError::BankerWinOnSixExceedsBankerWeight {
            banker: 240,
            banker_win_on_six: 241,
        })
    );
}

#[test]
fn default_eight_deck_shoe_matches_probability_baseline() {
    // expect 表示这个场景按设计必须成功；如果失败，测试应立即停止并显示原因。
    let weights = calculate_main_outcomes(&Shoe::default()).expect("完整八副牌应能够完成主注枚举");

    // 先检查精确整数权重。概率只是下面这些整数除以共同分母后的展示形式。
    assert_eq!(weights.player_weight(), 2_230_518_282_592_256);
    assert_eq!(weights.banker_weight(), 2_292_252_566_437_888);
    assert_eq!(weights.tie_weight(), 475_627_426_473_216);
    assert_eq!(weights.total_weight(), 4_998_398_275_503_360);
    assert!(weights.banker_win_on_six_weight() > 0);
    assert!(weights.banker_win_on_six_weight() <= weights.banker_weight());

    // 浮点数不适合直接 == 比较，所以检查与基线之差是否小于允许误差。
    assert!((weights.player_probability::<f64>() - 0.446246609344).abs() < 1e-12);
    assert!((weights.banker_probability::<f64>() - 0.458597422633).abs() < 1e-12);
    assert!((weights.tie_probability::<f64>() - 0.095155968024).abs() < 1e-12);
}

//! Baccarat: drawing rules, exact outcome weights, side bets, decisions and replays.

pub mod account;
pub mod analysis;
pub mod bet;
pub mod cache;
pub mod composition;
pub mod course_laws;
pub mod day;
pub mod day_load;
pub mod day_totals;
pub mod dealing;
pub mod deals;
pub mod distribution;
pub mod drawing;
pub mod engine;
pub mod enumerate;
pub mod ev;
pub mod generated;
pub mod growth;
pub mod hand;
pub mod kelly;
pub mod kinds;
pub mod laws;
pub mod ledger;
pub mod load;
pub mod machine;
pub mod messages;
pub mod packets;
pub mod pairs;
pub mod placing;
pub mod plan;
pub mod point_cache;
pub mod point_enumerate;
pub mod probability;
pub mod provider;
pub mod random;
pub mod rebate;
pub mod reconcile;
pub mod records;
pub mod replay;
pub mod report;
pub mod risk;
pub mod round;
pub mod rule;
pub mod schedule;
pub mod settling;
pub mod side_bet;
pub mod simulation;
pub mod snapshot;
pub mod stakes;
pub mod strategy;
pub mod totals;
pub mod worth;

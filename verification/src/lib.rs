//! Verified core of a bot for tsuitate shogi, the blind variant in which neither player sees
//! the other's pieces and an illegal attempt costs a foul instead of the turn.

pub mod bignum;
pub mod binary;
pub mod board;
pub mod bridge;
pub mod candidates;
pub mod chase;
pub mod check;
pub mod check_belief;
pub mod check_economy;
pub mod check_laws;
pub mod check_mining;
pub mod check_policy;
pub mod check_prep;
pub mod check_price;
pub mod check_votes;
pub mod checkpoint;
pub mod client;
pub mod config;
pub mod conservation;
pub mod continuation;
pub mod deck_laws;
pub mod diagnosis;
pub mod digest;
pub mod economy_laws;
pub mod geometry;
pub mod health;
pub mod json;
pub mod kifu;
pub mod lists;
pub mod mate_export;
pub mod mate_laws;
pub mod mate_points;
pub mod mate_report;
pub mod material_laws;
pub mod mining_laws;
pub mod model;
pub mod notation;
pub mod number_laws;
pub mod numeral;
pub mod observation;
pub mod origin_weights;
pub mod pawn_push;
pub mod policy_laws;
pub mod prep_laws;
pub mod probe_laws;
pub mod protocol;
pub mod reach;
pub mod recapture;
pub mod record_laws;
pub mod replay;
pub mod rules;
pub mod scenario;
pub mod seeds;
pub mod setting_laws;
pub mod shogi;
pub mod shortest;
pub mod solver_laws;
pub mod synthesis;
pub mod text;
pub mod text_laws;
pub mod trial_laws;
pub mod tsume;
pub mod tuning;
pub mod webhook;
pub mod window_laws;
pub mod window_search;

pub mod naive_round_score;

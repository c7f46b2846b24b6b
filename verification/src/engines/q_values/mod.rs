pub mod regret;

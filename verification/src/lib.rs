pub mod text;
pub mod models;
pub mod pdf;
pub mod delta_policy;
pub mod annotation;
pub mod quest;
pub mod ai;
pub mod mock;
pub mod keywords;
pub mod provider;
pub mod analysis;
pub mod canonical;
pub mod evaluation;
pub mod fixture;
pub mod session;
pub mod diagnostics;
pub mod review;

//! Tranova: the verified core of an AI translation studio.
pub mod ai;
pub mod models;
pub mod text;
pub mod files;
pub mod store;
pub mod jobs;
pub mod json;
pub mod responses;
pub mod formats;
pub mod xml;
pub mod office;
pub mod scheduler;
pub mod web;
pub mod fonts;

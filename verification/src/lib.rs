//! A tracker of Maharashtra FDA food-safety enforcement actions built from news reports:
//! the decisions of the daily pipeline (which articles to read, what a model reply says,
//! how records are cleaned, matched and de-duplicated, and which rows are written), each
//! with its contract.
pub mod cron;
pub mod db;
pub mod dupes;
pub mod events;
pub mod json;
pub mod llm;
pub mod models;
pub mod news;
pub mod records;
pub mod reply;
pub mod scrape;
pub mod text;

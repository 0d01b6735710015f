//! Verified request scanning and response building for a family of small
//! request/response capabilities.
pub mod digest;
pub mod emit;
pub mod scan;
pub mod nudge_event;
pub mod authorize;
pub mod pricing;
pub mod pcm;
pub mod activity;
pub mod release_gate;
pub mod validators;
pub mod consent;
pub mod action_items;
pub mod followup;
pub mod completion;
pub mod participants;
pub mod escalation;
pub mod transition;
pub mod order_status;
pub mod cart_line;
pub mod nudge_message;
pub mod ownership;
pub mod item_check;
pub mod health;
pub mod artifact;
pub mod doc_analysis;
pub mod recommendation;
pub mod notes;
pub mod model_table;
pub mod catalog;
pub mod catalog_build;
pub mod currency;
pub mod plans;
pub mod json_text;

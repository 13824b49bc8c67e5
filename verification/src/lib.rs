//! Usenet posting toolkit: yEnc encoding, PAR2 recovery data, NNTP article
//! handling, NZB generation and the bookkeeping around an upload.

pub mod article;
pub mod calendar;
pub mod chars;
pub mod compress;
pub mod config;
pub mod digests;
mod environment;
pub mod history;
pub mod indexer;
pub mod json;
pub mod json_reading;
pub mod nfo;
pub mod nntp;
pub mod notify;
pub mod nzb;
pub mod nzb_reading;
pub mod par2;
pub mod paths;
pub mod poster;
pub mod progress;
pub mod rate;
pub mod reading;
pub mod scan;
pub mod sizes;
pub mod text;
pub mod yenc;

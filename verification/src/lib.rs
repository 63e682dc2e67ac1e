//! Exact nearest-neighbour fraud scoring: the index, its file formats and its builder,
//! the search, and the decisions of the services around them.
#![allow(unused_imports)]
use vstd::prelude::*;

pub mod index;
pub mod distance;
pub mod words;
pub mod top5;
pub mod traversal;
pub mod search;
pub mod exact;
pub mod decided;
pub mod tallies;
pub mod measures;
pub mod reach;
pub mod kd;
pub mod builder;
pub mod trees;
pub mod bytes;
pub mod layout;
pub mod load;
pub mod roundtrip;
pub mod formats;
pub mod written;
pub mod faults;
pub mod check;
pub mod distribution;
pub mod text;
pub mod lex;
pub mod grammar;
pub mod fixed_point;
pub mod values;
pub mod stream;
pub mod scanning;
pub mod references;
pub mod reference_text;
pub mod refusals;
pub mod json;
pub mod lookup;
pub mod transaction;
pub mod reading;
pub mod calendar;
pub mod timestamps;
pub mod features;
pub mod queries;
pub mod http;
pub mod framing;
pub mod client;
pub mod pool;
pub mod serving;
pub mod fdpass;
pub mod balance;
pub mod settings;
pub mod passing;
pub mod basics;

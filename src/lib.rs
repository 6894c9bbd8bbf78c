use vstd::prelude::*;

pub mod channel;
pub mod command;
pub mod common;
pub mod connection;
pub mod context;
pub mod keywords;
pub mod number;
pub mod protocol;
pub mod rdb;
pub mod reader;
pub mod replica;
pub mod response;
pub mod sorted_set;
pub mod store;
pub mod stream;
pub mod waiters;

verus! {

} // verus!

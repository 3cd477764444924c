//! The names of the special tokens that delimit a conversation.
use vstd::prelude::*;

verus! {

pub const BOS: &'static str = "<|bos|>";

pub const USER_START: &'static str = "<|user_start|>";

pub const USER_END: &'static str = "<|user_end|>";

pub const ASSISTANT_START: &'static str = "<|assistant_start|>";

pub const ASSISTANT_END: &'static str = "<|assistant_end|>";

} // verus!

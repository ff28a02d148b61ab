use vstd::prelude::*;

verus! {

/// Characters from which trade correlation tokens are drawn.
pub const DRUID_CHARSET: &'static str = "ABCDEFGHIJKLMNOPQRSTUVWXYZabcdefghijklmnopqrstuvwxyz0123456789";

/// Number of characters in a trade correlation token.
pub const DRUID_LENGTH: usize = 16;

} // verus!

//! Integer core of a sphere path tracer: how the pixels of an image are
//! counted, numbered, split among workers and put back together in order.
pub mod world;

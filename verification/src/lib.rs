//! A singly-linked, stack-discipline list: head insertion and removal,
//! peeking, forward iteration, structural equality, and a lossless
//! round-trip text serialization as an ordered array literal.

pub mod linked_list;
pub mod codec;
pub mod mresult;

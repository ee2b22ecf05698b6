//! The two contracts every search problem and every strategy meet, and the
//! priority pair used by the informed strategies.
pub mod algorithm;
pub mod node;
pub mod p_tuple;

//! Bit-packed binary codec for straight-line-program grammars.
//!
//! A grammar is an ordered sequence of rules; a rule is an ordered sequence of
//! symbols. A symbol value below [`grammar::RULE_OFFSET`] is a terminal byte;
//! any other value refers to the rule with index `value - RULE_OFFSET`.
//!
//! Two wire-format variants exist side by side and are not binary compatible:
//! the fixed format ([`fixed`]) stores every rule's absolute length and uses
//! little-endian integer fields, while the range-reduced format
//! ([`grammar_tuple`]) writes the minimum and maximum rule length once at the
//! head of the stream, stores each rule's length as an offset from the
//! minimum, and uses big-endian integer fields. The caller selects a variant
//! out of band; no tag is embedded in the stream.

pub mod bits;
pub mod codec;
pub mod coding;
pub mod didactic;
pub mod errors;
pub mod fixed;
pub mod grammar;
pub mod grammar_tuple;
pub mod grm_decoder;
pub mod lemmas;

//! A human-readable, one-line-per-rule rendering of a grammar.
//!
//! Each rule prints as `R<number> -> ` followed by its symbols, each followed
//! by one space: a terminal as its character (encoded as UTF-8), a
//! non-terminal as `R` and the referenced rule's number. This coder only
//! encodes; there is no decoder for it.

use vstd::prelude::*;

verus! {

use crate::grammar::RULE_OFFSET;

/// The decimal digits of `n`, as ASCII bytes.
pub open spec fn dec_digits(n: nat) -> Seq<u8>
    decreases n,
{
    if n < 10 {
        seq![(48 + n) as u8]
    } else {
        dec_digits(n / 10) + seq![(48 + n % 10) as u8]
    }
}

/// The UTF-8 encoding of the character whose code point is `b`.
pub open spec fn utf8_of_byte(b: u8) -> Seq<u8> {
    if b < 0x80 {
        seq![b]
    } else {
        seq![if b < 0xC0 { 0xC2u8 } else { 0xC3u8 }, (0x80 + (b % 0x40)) as u8]
    }
}

/// The text of one symbol: the terminal's character, or `R` and the
/// referenced rule's number; either followed by one space.
pub open spec fn symbol_text(s: u32) -> Seq<u8> {
    if s < RULE_OFFSET {
        utf8_of_byte(s as u8) + seq![32u8]
    } else {
        seq![82u8] + dec_digits((s - RULE_OFFSET) as nat) + seq![32u8]
    }
}

/// The text of the first `n` symbols of a rule.
pub open spec fn symbols_text(rule: Seq<u32>, n: int) -> Seq<u8>
    decreases n,
{
    if n <= 0 {
        Seq::empty()
    } else {
        symbols_text(rule, n - 1) + symbol_text(rule[n - 1])
    }
}

/// One line of text: `R<i> -> `, the rule's symbols, and a newline.
pub open spec fn rule_text(i: nat, rule: Seq<u32>) -> Seq<u8> {
    seq![82u8] + dec_digits(i) + seq![32u8, 45u8, 62u8, 32u8] + symbols_text(rule, rule.len() as int) + seq![10u8]
}

/// The text of the first `n` rules.
pub open spec fn rules_text(gs: Seq<Seq<u32>>, n: int) -> Seq<u8>
    decreases n,
{
    if n <= 0 {
        Seq::empty()
    } else {
        rules_text(gs, n - 1) + rule_text((n - 1) as nat, gs[n - 1])
    }
}

/// The whole rendering of a grammar, one line per rule.
pub open spec fn didactic_text(gs: Seq<Seq<u32>>) -> Seq<u8> {
    rules_text(gs, gs.len() as int)
}

/// Append the decimal digits of `n`.
fn push_decimal(out: &mut Vec<u8>, n: u64)
    ensures
        final(out)@ == old(out)@ + dec_digits(n as nat),
    decreases n,
{
    if n >= 10 {
        push_decimal(out, n / 10);
    }
    let d = (n % 10) as u8;
    out.push(48 + d);
    proof {
        assert(out@ =~= old(out)@ + dec_digits(n as nat));
    }
}

/// Append the text of one symbol.
fn push_symbol_text(out: &mut Vec<u8>, s: u32)
    ensures
        final(out)@ == old(out)@ + symbol_text(s),
{
    if s < RULE_OFFSET {
        let b = s as u8;
        if b < 0x80 {
            out.push(b);
        } else {
            if b < 0xC0 {
                out.push(0xC2);
            } else {
                out.push(0xC3);
            }
            out.push(0x80 + (b % 0x40));
        }
        out.push(32);
        proof {
            assert(out@ =~= old(out)@ + symbol_text(s));
        }
    } else {
        out.push(82);
        push_decimal(out, (s - RULE_OFFSET) as u64);
        out.push(32);
        proof {
            assert(out@ =~= old(out)@ + symbol_text(s));
        }
    }
}

/// Render a grammar as text, one rule per line.
#[verifier::loop_isolation(false)]
pub fn encode(grammar: &Vec<Vec<u32>>) -> (r: Vec<u8>)
    ensures
        r@ == didactic_text(grammar.deep_view()),
{
    let ghost gs = grammar.deep_view();
    let mut out: Vec<u8> = Vec::new();
    proof {
        assert(out@ =~= rules_text(gs, 0));
    }
    let mut i: usize = 0;
    while i < grammar.len()
        invariant
            i <= grammar.len(),
            out@ == rules_text(gs, i as int),
        decreases grammar.len() - i,
    {
        proof {
            assert(gs[i as int] =~= grammar@[i as int]@);
        }
        out.push(82);
        push_decimal(&mut out, i as u64);
        out.push(32);
        out.push(45);
        out.push(62);
        out.push(32);
        let ghost line_head = out@;
        proof {
            assert(line_head =~= rules_text(gs, i as int) + seq![82u8] + dec_digits(i as nat)
                + seq![32u8, 45u8, 62u8, 32u8]);
        }
        let rule = &grammar[i];
        let mut j: usize = 0;
        while j < rule.len()
            invariant
                j <= rule.len(),
                out@ == line_head + symbols_text(gs[i as int], j as int),
            decreases rule.len() - j,
        {
            push_symbol_text(&mut out, rule[j]);
            j = j + 1;
            proof {
                assert(out@ =~= line_head + symbols_text(gs[i as int], j as int));
            }
        }
        out.push(10);
        i = i + 1;
        proof {
            assert(out@ =~= rules_text(gs, i as int));
        }
    }
    out
}

} // verus!

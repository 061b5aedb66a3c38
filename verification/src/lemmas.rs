//! Relations between the encoder and the decoder.
//!
//! [`lemma_round_trip`] shows that decoding an encoded grammar yields the
//! grammar back, for either variant; [`lemma_truncation`] shows that decoding
//! any strict byte-boundary prefix of an encoded stream fails.

use vstd::prelude::*;

verus! {

use crate::bits::{ByteOrder, byte_bits, lemma_byte_of_byte_bits, lemma_stream_bits_take, lemma_u32_of_u32_bits, stream_bits, u32_bits};
use crate::codec::{dec_byte, dec_rule, dec_rules, dec_symbol, dec_symbols, dec_u32, encoded_bits, grammar_bits, header_bits, length_base, rule_bits, rules_bits, spec_decode, symbol_bits, symbols_bits, wrap_add};
use crate::grammar::{RULE_OFFSET, grammar_fits, lemma_min_fold_le, max_len_fold, min_len_fold};

/// A stream slice equal to a concatenation splits into slices equal to the
/// two halves.
proof fn lemma_subrange_concat(bits: Seq<bool>, pos: int, x: Seq<bool>, y: Seq<bool>)
    requires
        0 <= pos,
        pos + x.len() + y.len() <= bits.len(),
        bits.subrange(pos, pos + x.len() + y.len()) == x + y,
    ensures
        bits.subrange(pos, pos + x.len()) == x,
        bits.subrange(pos + x.len(), pos + x.len() + y.len()) == y,
{
    let t = x.len() as int;
    let u = y.len() as int;
    assert forall|i: int| 0 <= i < t implies bits.subrange(pos, pos + t)[i] == x[i] by {
        assert(bits.subrange(pos, pos + t + u)[i] == (x + y)[i]);
    }
    assert(bits.subrange(pos, pos + t) =~= x);
    assert forall|i: int| 0 <= i < u implies bits.subrange(pos + t, pos + t + u)[i] == y[i] by {
        assert(bits.subrange(pos, pos + t + u)[t + i] == (x + y)[t + i]);
    }
    assert(bits.subrange(pos + t, pos + t + u) =~= y);
}

/// A 32-bit field parses back to the value whose bits were written.
proof fn lemma_dec_u32_at(bits: Seq<bool>, pos: int, v: u32, order: ByteOrder)
    requires
        0 <= pos,
        pos + 32 <= bits.len(),
        bits.subrange(pos, pos + 32) == u32_bits(v, order),
    ensures
        dec_u32(bits, pos, order) == Some((v, pos + 32)),
{
    lemma_u32_of_u32_bits(v, order);
}

/// A symbol parses back to the symbol whose bits were written.
proof fn lemma_dec_symbol_at(bits: Seq<bool>, pos: int, s: u32, order: ByteOrder)
    requires
        0 <= pos,
        pos + symbol_bits(s, order).len() <= bits.len(),
        bits.subrange(pos, pos + symbol_bits(s, order).len()) == symbol_bits(s, order),
    ensures
        dec_symbol(bits, pos, order) == Some((s, pos + symbol_bits(s, order).len())),
{
    let sb = symbol_bits(s, order);
    if s < RULE_OFFSET {
        assert(sb.len() == 9);
        lemma_subrange_concat(bits, pos, seq![false], byte_bits(s as u8));
        assert(bits[pos] == bits.subrange(pos, pos + 1)[0]);
        assert(!bits[pos]);
        lemma_byte_of_byte_bits(s as u8);
        assert(dec_byte(bits, pos + 1) == Some((s as u8, pos + 9)));
    } else {
        let v = (s - RULE_OFFSET) as u32;
        assert(sb.len() == 33);
        lemma_subrange_concat(bits, pos, seq![true], u32_bits(v, order));
        assert(bits[pos] == bits.subrange(pos, pos + 1)[0]);
        assert(bits[pos]);
        lemma_dec_u32_at(bits, pos + 1, v, order);
        assert(wrap_add(v, RULE_OFFSET) == s);
    }
}

/// The first `n` symbols of a rule parse back from their written bits.
proof fn lemma_dec_symbols_at(bits: Seq<bool>, pos: int, rule: Seq<u32>, n: int, order: ByteOrder)
    requires
        0 <= n <= rule.len(),
        0 <= pos,
        pos + symbols_bits(rule, n, order).len() <= bits.len(),
        bits.subrange(pos, pos + symbols_bits(rule, n, order).len()) == symbols_bits(rule, n, order),
    ensures
        dec_symbols(bits, pos, n, order) == Some((rule.take(n), pos + symbols_bits(rule, n, order).len())),
    decreases n,
{
    if n <= 0 {
        assert(rule.take(0) =~= Seq::<u32>::empty());
    } else {
        let front = symbols_bits(rule, n - 1, order);
        let last = symbol_bits(rule[n - 1], order);
        assert(symbols_bits(rule, n, order) == front + last);
        let a = front.len() as int;
        lemma_subrange_concat(bits, pos, front, last);
        lemma_dec_symbols_at(bits, pos, rule, n - 1, order);
        lemma_dec_symbol_at(bits, pos + a, rule[n - 1], order);
        assert(rule.take(n - 1).push(rule[n - 1]) =~= rule.take(n));
    }
}

/// A rule parses back from its written bits.
proof fn lemma_dec_rule_at(bits: Seq<bool>, pos: int, rule: Seq<u32>, base: u32, order: ByteOrder)
    requires
        rule.len() <= u32::MAX,
        base <= rule.len(),
        0 <= pos,
        pos + rule_bits(rule, base, order).len() <= bits.len(),
        bits.subrange(pos, pos + rule_bits(rule, base, order).len()) == rule_bits(rule, base, order),
    ensures
        dec_rule(bits, pos, base, order) == Some((rule, pos + rule_bits(rule, base, order).len())),
{
    let v = (rule.len() - base) as u32;
    let lenfield = u32_bits(v, order);
    let body = symbols_bits(rule, rule.len() as int, order);
    assert(rule_bits(rule, base, order) == lenfield + body);
    lemma_subrange_concat(bits, pos, lenfield, body);
    lemma_dec_u32_at(bits, pos, v, order);
    assert(wrap_add(v, base) == rule.len());
    lemma_dec_symbols_at(bits, pos + 32, rule, rule.len() as int, order);
    assert(rule.take(rule.len() as int) =~= rule);
}

/// The first `n` rules parse back from their written bits.
proof fn lemma_dec_rules_at(bits: Seq<bool>, pos: int, gs: Seq<Seq<u32>>, n: int, base: u32, order: ByteOrder)
    requires
        grammar_fits(gs),
        0 <= n <= gs.len(),
        forall|i: int| 0 <= i < gs.len() ==> base <= (#[trigger] gs[i]).len(),
        0 <= pos,
        pos + rules_bits(gs, n, base, order).len() <= bits.len(),
        bits.subrange(pos, pos + rules_bits(gs, n, base, order).len()) == rules_bits(gs, n, base, order),
    ensures
        dec_rules(bits, pos, n, base, order) == Some((gs.take(n), pos + rules_bits(gs, n, base, order).len())),
    decreases n,
{
    if n <= 0 {
        assert(gs.take(0) =~= Seq::<Seq<u32>>::empty());
    } else {
        let front = rules_bits(gs, n - 1, base, order);
        let last = rule_bits(gs[n - 1], base, order);
        assert(rules_bits(gs, n, base, order) == front + last);
        let a = front.len() as int;
        lemma_subrange_concat(bits, pos, front, last);
        lemma_dec_rules_at(bits, pos, gs, n - 1, base, order);
        lemma_dec_rule_at(bits, pos + a, gs[n - 1], base, order);
        assert(gs.take(n - 1).push(gs[n - 1]) =~= gs.take(n));
    }
}

/// How many bits the header of an encoded grammar holds.
pub open spec fn header_len(range_reduced: bool) -> int {
    if range_reduced {
        96
    } else {
        32
    }
}

/// A stream that starts with an encoded grammar's bits parses field by field
/// back to that grammar, the parse of the rules ending exactly where the
/// grammar's bits end.
proof fn lemma_parse_encoded(gs: Seq<Seq<u32>>, bits: Seq<bool>, order: ByteOrder, range_reduced: bool)
    requires
        grammar_fits(gs),
        grammar_bits(gs, order, range_reduced).len() <= bits.len(),
        bits.subrange(0, grammar_bits(gs, order, range_reduced).len() as int) == grammar_bits(gs, order, range_reduced),
    ensures
        dec_u32(bits, 0, order) == Some((gs.len() as u32, 32int)),
        range_reduced ==> dec_u32(bits, 32, order) == Some((min_len_fold(gs, gs.len() as int), 64int)),
        range_reduced ==> dec_u32(bits, 64, order) == Some((max_len_fold(gs, gs.len() as int), 96int)),
        dec_rules(bits, header_len(range_reduced), gs.len() as int, length_base(gs, range_reduced), order)
            == Some((gs, grammar_bits(gs, order, range_reduced).len() as int)),
{
    let gb = grammar_bits(gs, order, range_reduced);
    let hb = header_bits(gs, order, range_reduced);
    let base = length_base(gs, range_reduced);
    let rb = rules_bits(gs, gs.len() as int, base, order);
    let count = gs.len() as u32;
    assert(gb == hb + rb);
    lemma_subrange_concat(bits, 0, hb, rb);
    assert forall|i: int| 0 <= i < gs.len() implies base <= (#[trigger] gs[i]).len() by {
        if range_reduced {
            lemma_min_fold_le(gs, gs.len() as int, i);
        }
    }
    if range_reduced {
        let mn = min_len_fold(gs, gs.len() as int);
        let mx = max_len_fold(gs, gs.len() as int);
        let tail = u32_bits(mn, order) + u32_bits(mx, order);
        assert(hb == u32_bits(count, order) + tail);
        assert(hb.len() == 96);
        lemma_subrange_concat(bits, 0, u32_bits(count, order), tail);
        lemma_subrange_concat(bits, 32, u32_bits(mn, order), u32_bits(mx, order));
        lemma_dec_u32_at(bits, 0, count, order);
        lemma_dec_u32_at(bits, 32, mn, order);
        lemma_dec_u32_at(bits, 64, mx, order);
    } else {
        assert(hb.len() == 32);
        assert(hb == u32_bits(count, order) + Seq::<bool>::empty());
        assert(bits.subrange(0, 32) =~= bits.subrange(0, hb.len() as int));
        lemma_dec_u32_at(bits, 0, count, order);
    }
    lemma_dec_rules_at(bits, header_len(range_reduced), gs, gs.len() as int, base, order);
    assert(gs.take(gs.len() as int) =~= gs);
}

/// Decoding an encoded grammar yields the grammar back, exactly: rule order,
/// rule lengths and symbol values are all preserved, for either variant.
pub proof fn lemma_round_trip(gs: Seq<Seq<u32>>, bytes: Seq<u8>, order: ByteOrder, range_reduced: bool)
    requires
        grammar_fits(gs),
        stream_bits(bytes) == encoded_bits(gs, order, range_reduced),
    ensures
        spec_decode(bytes, order, range_reduced) == Some(gs),
{
    let bits = stream_bits(bytes);
    let gb = grammar_bits(gs, order, range_reduced);
    let padding = Seq::new(((8 - gb.len() % 8) % 8) as nat, |i: int| false);
    assert(bits == gb + padding);
    assert(bits.subrange(0, bits.len() as int) =~= gb + padding);
    lemma_subrange_concat(bits, 0, gb, padding);
    lemma_parse_encoded(gs, bits, order, range_reduced);
}

/// A symbol parse at a position within a prefix agrees with the parse of the
/// whole stream: it yields the same symbol when the whole symbol lies in the
/// prefix, and fails otherwise.
proof fn lemma_dec_symbol_prefix(bits: Seq<bool>, m: int, pos: int, order: ByteOrder)
    requires
        0 <= pos <= m <= bits.len(),
    ensures
        match dec_symbol(bits, pos, order) {
            Some((s, p)) => pos < p
                && dec_symbol(bits.take(m), pos, order) == (if p <= m { Some((s, p)) } else { None::<(u32, int)> }),
            None => dec_symbol(bits.take(m), pos, order) is None,
        },
{
    let t = bits.take(m);
    if pos < m {
        assert(t[pos] == bits[pos]);
        match dec_symbol(bits, pos, order) {
            Some((s, p)) => {
                if p <= m {
                    if !bits[pos] {
                        assert(t.subrange(pos + 1, pos + 9) =~= bits.subrange(pos + 1, pos + 9));
                    } else {
                        assert(t.subrange(pos + 1, pos + 33) =~= bits.subrange(pos + 1, pos + 33));
                    }
                }
            },
            None => {},
        }
    }
}

/// A symbol-sequence parse at a position within a prefix agrees with the
/// parse of the whole stream in the same way.
proof fn lemma_dec_symbols_prefix(bits: Seq<bool>, m: int, pos: int, n: int, order: ByteOrder)
    requires
        0 <= pos <= m <= bits.len(),
    ensures
        match dec_symbols(bits, pos, n, order) {
            Some((v, p)) => pos <= p
                && dec_symbols(bits.take(m), pos, n, order) == (if p <= m { Some((v, p)) } else { None::<(Seq<u32>, int)> }),
            None => dec_symbols(bits.take(m), pos, n, order) is None,
        },
    decreases n,
{
    if n <= 0 {
    } else {
        lemma_dec_symbols_prefix(bits, m, pos, n - 1, order);
        match dec_symbols(bits, pos, n - 1, order) {
            Some((v1, p1)) => {
                if p1 <= m {
                    lemma_dec_symbol_prefix(bits, m, p1, order);
                }
            },
            None => {},
        }
    }
}

/// A successful symbol-sequence parse never moves backwards.
proof fn lemma_dec_symbols_pos(bits: Seq<bool>, pos: int, n: int, order: ByteOrder)
    requires
        dec_symbols(bits, pos, n, order) is Some,
    ensures
        pos <= dec_symbols(bits, pos, n, order).unwrap().1,
    decreases n,
{
    if n <= 0 {
    } else {
        lemma_dec_symbols_pos(bits, pos, n - 1, order);
    }
}

/// A rule parse at a position within a prefix agrees with the parse of the
/// whole stream in the same way.
proof fn lemma_dec_rule_prefix(bits: Seq<bool>, m: int, pos: int, base: u32, order: ByteOrder)
    requires
        0 <= pos <= m <= bits.len(),
    ensures
        match dec_rule(bits, pos, base, order) {
            Some((v, p)) => pos <= p
                && dec_rule(bits.take(m), pos, base, order) == (if p <= m { Some((v, p)) } else { None::<(Seq<u32>, int)> }),
            None => dec_rule(bits.take(m), pos, base, order) is None,
        },
{
    let t = bits.take(m);
    match dec_u32(bits, pos, order) {
        Some((raw, p1)) => {
            if p1 <= m {
                assert(t.subrange(pos, pos + 32) =~= bits.subrange(pos, pos + 32));
                assert(dec_u32(t, pos, order) == Some((raw, p1)));
                lemma_dec_symbols_prefix(bits, m, p1, wrap_add(raw, base) as int, order);
            } else {
                assert(dec_u32(t, pos, order) is None);
                if dec_symbols(bits, p1, wrap_add(raw, base) as int, order) is Some {
                    lemma_dec_symbols_pos(bits, p1, wrap_add(raw, base) as int, order);
                }
            }
        },
        None => {
            assert(dec_u32(t, pos, order) is None);
        },
    }
}

/// A successful rule parse never moves backwards.
proof fn lemma_dec_rule_pos(bits: Seq<bool>, pos: int, base: u32, order: ByteOrder)
    requires
        dec_rule(bits, pos, base, order) is Some,
    ensures
        pos <= dec_rule(bits, pos, base, order).unwrap().1,
{
    match dec_u32(bits, pos, order) {
        Some((raw, p1)) => {
            lemma_dec_symbols_pos(bits, p1, wrap_add(raw, base) as int, order);
        },
        None => {},
    }
}

/// A rule-sequence parse at a position within a prefix agrees with the parse
/// of the whole stream in the same way.
proof fn lemma_dec_rules_prefix(bits: Seq<bool>, m: int, pos: int, n: int, base: u32, order: ByteOrder)
    requires
        0 <= pos <= m <= bits.len(),
    ensures
        match dec_rules(bits, pos, n, base, order) {
            Some((v, p)) => pos <= p
                && dec_rules(bits.take(m), pos, n, base, order) == (if p <= m { Some((v, p)) } else { None::<(Seq<Seq<u32>>, int)> }),
            None => dec_rules(bits.take(m), pos, n, base, order) is None,
        },
    decreases n,
{
    if n <= 0 {
    } else {
        lemma_dec_rules_prefix(bits, m, pos, n - 1, base, order);
        match dec_rules(bits, pos, n - 1, base, order) {
            Some((v1, p1)) => {
                if p1 <= m {
                    lemma_dec_rule_prefix(bits, m, p1, base, order);
                } else {
                    if dec_rule(bits, p1, base, order) is Some {
                        lemma_dec_rule_pos(bits, p1, base, order);
                    }
                }
            },
            None => {},
        }
    }
}

/// Truncating an encoded stream at any byte boundary before its final byte
/// makes decoding fail; no short or garbled grammar is ever returned.
#[verifier::rlimit(100)]
pub proof fn lemma_truncation(gs: Seq<Seq<u32>>, bytes: Seq<u8>, k: int, order: ByteOrder, range_reduced: bool)
    requires
        grammar_fits(gs),
        stream_bits(bytes) == encoded_bits(gs, order, range_reduced),
        8 * bytes.len() == encoded_bits(gs, order, range_reduced).len(),
        0 <= k < bytes.len(),
    ensures
        spec_decode(bytes.take(k), order, range_reduced) is None,
{
    let bits = stream_bits(bytes);
    let gb = grammar_bits(gs, order, range_reduced);
    let padding = Seq::new(((8 - gb.len() % 8) % 8) as nat, |i: int| false);
    assert(bits == gb + padding);
    assert(bits.subrange(0, bits.len() as int) =~= gb + padding);
    lemma_subrange_concat(bits, 0, gb, padding);
    lemma_parse_encoded(gs, bits, order, range_reduced);

    let m = 8 * k;
    // the padding holds fewer than eight bits, so dropping a whole byte cuts
    // into the grammar's own bits
    assert(padding.len() < 8);
    assert(m <= 8 * (bytes.len() - 1));
    assert(m < gb.len());
    lemma_stream_bits_take(bytes, k);
    let t = stream_bits(bytes.take(k));
    assert(t == bits.take(m));

    let count = gs.len() as u32;
    let base = length_base(gs, range_reduced);
    let p_rules = header_len(range_reduced);
    if m < 32 {
        assert(dec_u32(t, 0, order) is None);
    } else {
        assert(t.subrange(0, 32) =~= bits.subrange(0, 32));
        assert(dec_u32(t, 0, order) == Some((count, 32int)));
        if range_reduced {
            if m < 64 {
                assert(dec_u32(t, 32, order) is None);
            } else {
                assert(t.subrange(32, 64) =~= bits.subrange(32, 64));
                if m < 96 {
                    assert(dec_u32(t, 64, order) is None);
                } else {
                    assert(t.subrange(64, 96) =~= bits.subrange(64, 96));
                    lemma_dec_rules_prefix(bits, m, p_rules, count as int, base, order);
                    assert(dec_rules(t, p_rules, count as int, base, order) is None);
                }
            }
        } else {
            lemma_dec_rules_prefix(bits, m, p_rules, count as int, base, order);
            assert(dec_rules(t, p_rules, count as int, base, order) is None);
        }
    }
}

} // verus!

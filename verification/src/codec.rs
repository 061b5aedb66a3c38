//! The shared encoder and decoder behind both wire-format variants.
//!
//! Both variants follow one pipeline; they differ only in the byte order of
//! their integer fields and in whether rule lengths are range-reduced, i.e.
//! stored as offsets from a folded minimum written once in the header. The
//! fixed variant behaves as a base of zero with no extra header fields.

use vstd::prelude::*;

verus! {

use crate::bits::{BitReader, BitWriter, ByteOrder, byte_bits, byte_of_bits, pad_bits, stream_bits, u32_bits, u32_of_bits};
use crate::errors::CodecError;
use crate::grammar::{RULE_OFFSET, grammar_fits, lemma_min_fold_le, max_len_fold, min_len_fold};

/// u32 addition that wraps around, as the decoder's reconstruction of rule
/// lengths and rule indices does.
pub open spec fn wrap_add(a: u32, b: u32) -> u32 {
    if a + b > u32::MAX {
        (a + b - 0x100000000) as u32
    } else {
        (a + b) as u32
    }
}

/// The bits of one encoded symbol: a discriminator bit, then either the
/// terminal byte or the 32-bit rule index.
pub open spec fn symbol_bits(s: u32, order: ByteOrder) -> Seq<bool> {
    if s < RULE_OFFSET {
        seq![false] + byte_bits(s as u8)
    } else {
        seq![true] + u32_bits((s - RULE_OFFSET) as u32, order)
    }
}

/// The bits of the first `n` symbols of a rule.
pub open spec fn symbols_bits(rule: Seq<u32>, n: int, order: ByteOrder) -> Seq<bool>
    decreases n,
{
    if n <= 0 {
        Seq::empty()
    } else {
        symbols_bits(rule, n - 1, order) + symbol_bits(rule[n - 1], order)
    }
}

/// The bits of one encoded rule: a length field holding the rule length
/// minus `base`, then the rule's symbols.
pub open spec fn rule_bits(rule: Seq<u32>, base: u32, order: ByteOrder) -> Seq<bool> {
    u32_bits((rule.len() - base) as u32, order) + symbols_bits(rule, rule.len() as int, order)
}

/// The bits of the first `n` encoded rules.
pub open spec fn rules_bits(gs: Seq<Seq<u32>>, n: int, base: u32, order: ByteOrder) -> Seq<bool>
    decreases n,
{
    if n <= 0 {
        Seq::empty()
    } else {
        rules_bits(gs, n - 1, base, order) + rule_bits(gs[n - 1], base, order)
    }
}

/// The base subtracted from each stored rule length: the folded minimum when
/// lengths are range-reduced, else zero.
pub open spec fn length_base(gs: Seq<Seq<u32>>, range_reduced: bool) -> u32 {
    if range_reduced {
        min_len_fold(gs, gs.len() as int)
    } else {
        0
    }
}

/// The header bits: the rule count and, for the range-reduced variant, the
/// folded minimum and maximum rule length.
pub open spec fn header_bits(gs: Seq<Seq<u32>>, order: ByteOrder, range_reduced: bool) -> Seq<bool> {
    u32_bits(gs.len() as u32, order) + if range_reduced {
        u32_bits(min_len_fold(gs, gs.len() as int), order) + u32_bits(max_len_fold(gs, gs.len() as int), order)
    } else {
        Seq::empty()
    }
}

/// Every bit of an encoded grammar, before byte alignment.
pub open spec fn grammar_bits(gs: Seq<Seq<u32>>, order: ByteOrder, range_reduced: bool) -> Seq<bool> {
    header_bits(gs, order, range_reduced) + rules_bits(gs, gs.len() as int, length_base(gs, range_reduced), order)
}

/// The bit stream an encoder produces: the grammar's bits padded with zero
/// bits to the next byte boundary.
pub open spec fn encoded_bits(gs: Seq<Seq<u32>>, order: ByteOrder, range_reduced: bool) -> Seq<bool> {
    pad_bits(grammar_bits(gs, order, range_reduced))
}

/// Parse one byte field at bit position `pos`.
pub open spec fn dec_byte(bits: Seq<bool>, pos: int) -> Option<(u8, int)> {
    if 0 <= pos && pos + 8 <= bits.len() {
        Some((byte_of_bits(bits.subrange(pos, pos + 8)), pos + 8))
    } else {
        None
    }
}

/// Parse one 32-bit field at bit position `pos`.
pub open spec fn dec_u32(bits: Seq<bool>, pos: int, order: ByteOrder) -> Option<(u32, int)> {
    if 0 <= pos && pos + 32 <= bits.len() {
        Some((u32_of_bits(bits.subrange(pos, pos + 32), order), pos + 32))
    } else {
        None
    }
}

/// Parse one symbol: a discriminator bit, then either a terminal byte or a
/// 32-bit rule index to which `RULE_OFFSET` is added with wraparound.
pub open spec fn dec_symbol(bits: Seq<bool>, pos: int, order: ByteOrder) -> Option<(u32, int)> {
    if 0 <= pos && pos < bits.len() {
        if !bits[pos] {
            match dec_byte(bits, pos + 1) {
                Some((b, p)) => Some((b as u32, p)),
                None => None,
            }
        } else {
            match dec_u32(bits, pos + 1, order) {
                Some((v, p)) => Some((wrap_add(v, RULE_OFFSET), p)),
                None => None,
            }
        }
    } else {
        None
    }
}

/// Parse the first `n` symbols of one rule.
pub open spec fn dec_symbols(bits: Seq<bool>, pos: int, n: int, order: ByteOrder) -> Option<(Seq<u32>, int)>
    decreases n,
{
    if n <= 0 {
        Some((Seq::empty(), pos))
    } else {
        match dec_symbols(bits, pos, n - 1, order) {
            Some((syms, p)) => match dec_symbol(bits, p, order) {
                Some((s, p2)) => Some((syms.push(s), p2)),
                None => None,
            },
            None => None,
        }
    }
}

/// Parse one rule: its length field, to which `base` is added with
/// wraparound, then that many symbols.
pub open spec fn dec_rule(bits: Seq<bool>, pos: int, base: u32, order: ByteOrder) -> Option<(Seq<u32>, int)> {
    match dec_u32(bits, pos, order) {
        Some((raw, p)) => dec_symbols(bits, p, wrap_add(raw, base) as int, order),
        None => None,
    }
}

/// Parse the first `n` rules.
pub open spec fn dec_rules(bits: Seq<bool>, pos: int, n: int, base: u32, order: ByteOrder) -> Option<(Seq<Seq<u32>>, int)>
    decreases n,
{
    if n <= 0 {
        Some((Seq::empty(), pos))
    } else {
        match dec_rules(bits, pos, n - 1, base, order) {
            Some((rules, p)) => match dec_rule(bits, p, base, order) {
                Some((rule, p2)) => Some((rules.push(rule), p2)),
                None => None,
            },
            None => None,
        }
    }
}

/// What decoding a byte stream yields: the rule count, for the range-reduced
/// variant the minimum and maximum rule length, then one rule per counted
/// rule. Trailing padding bits are ignored. `None` means the stream ended
/// before a field did.
pub open spec fn spec_decode(bytes: Seq<u8>, order: ByteOrder, range_reduced: bool) -> Option<Seq<Seq<u32>>> {
    let bits = stream_bits(bytes);
    match dec_u32(bits, 0, order) {
        Some((count, p0)) => if range_reduced {
            match dec_u32(bits, p0, order) {
                Some((min_len, p1)) => match dec_u32(bits, p1, order) {
                    Some((_max_len, p2)) => match dec_rules(bits, p2, count as int, min_len, order) {
                        Some((rules, _)) => Some(rules),
                        None => None,
                    },
                    None => None,
                },
                None => None,
            }
        } else {
            match dec_rules(bits, p0, count as int, 0, order) {
                Some((rules, _)) => Some(rules),
                None => None,
            }
        },
        None => None,
    }
}

/// A failed symbol-sequence parse stays failed for any larger symbol count.
pub proof fn lemma_dec_symbols_none(bits: Seq<bool>, pos: int, m: int, n: int, order: ByteOrder)
    requires
        dec_symbols(bits, pos, m, order) is None,
        m <= n,
    ensures
        dec_symbols(bits, pos, n, order) is None,
    decreases n,
{
    if m < n {
        lemma_dec_symbols_none(bits, pos, m, n - 1, order);
    }
}

/// A failed rule-sequence parse stays failed for any larger rule count.
pub proof fn lemma_dec_rules_none(bits: Seq<bool>, pos: int, m: int, n: int, base: u32, order: ByteOrder)
    requires
        dec_rules(bits, pos, m, base, order) is None,
        m <= n,
    ensures
        dec_rules(bits, pos, n, base, order) is None,
    decreases n,
{
    if m < n {
        lemma_dec_rules_none(bits, pos, m, n - 1, base, order);
    }
}

/// Read one symbol from the stream.
fn read_symbol(r: &mut BitReader, order: ByteOrder) -> (res: Result<u32, CodecError>)
    requires
        old(r).wf(),
    ensures
        final(r).wf(),
        final(r).source() == old(r).source(),
        match res {
            Ok(s) => dec_symbol(old(r).bits(), old(r).pos(), order) == Some((s, final(r).pos())),
            Err(e) => e == CodecError::UnexpectedEndOfStream
                && dec_symbol(old(r).bits(), old(r).pos(), order) is None,
        },
{
    let is_nonterminal = match r.read_bit() {
        Ok(b) => b,
        Err(e) => {
            return Err(e);
        },
    };
    if is_nonterminal {
        let v = match r.read_u32(order) {
            Ok(v) => v,
            Err(e) => {
                return Err(e);
            },
        };
        let s = v.wrapping_add(RULE_OFFSET);
        proof {
            assert(s == wrap_add(v, RULE_OFFSET));
        }
        Ok(s)
    } else {
        let b = match r.read_byte() {
            Ok(b) => b,
            Err(e) => {
                return Err(e);
            },
        };
        Ok(b as u32)
    }
}

/// Write one symbol to the stream.
fn write_symbol(w: &mut BitWriter, s: u32, order: ByteOrder)
    requires
        old(w).wf(),
    ensures
        final(w).wf(),
        final(w).bits() == old(w).bits() + symbol_bits(s, order),
{
    if s < RULE_OFFSET {
        w.write_bit(false);
        w.write_byte(s as u8);
        proof {
            assert(w.bits() =~= old(w).bits() + symbol_bits(s, order));
        }
    } else {
        w.write_bit(true);
        w.write_u32(s - RULE_OFFSET, order);
        proof {
            assert(w.bits() =~= old(w).bits() + symbol_bits(s, order));
        }
    }
}

/// Read one rule from the stream: its length field, to which `base` is
/// added with wraparound, then that many symbols.
#[verifier::loop_isolation(false)]
fn read_rule(r: &mut BitReader, base: u32, order: ByteOrder) -> (res: Result<Vec<u32>, CodecError>)
    requires
        old(r).wf(),
    ensures
        final(r).wf(),
        final(r).source() == old(r).source(),
        match res {
            Ok(rule) => dec_rule(old(r).bits(), old(r).pos(), base, order) == Some((rule@, final(r).pos())),
            Err(e) => e == CodecError::UnexpectedEndOfStream
                && dec_rule(old(r).bits(), old(r).pos(), base, order) is None,
        },
{
    let ghost bits = old(r).bits();
    let ghost p_rule = old(r).pos();
    let raw = match r.read_u32(order) {
        Ok(v) => v,
        Err(e) => {
            return Err(e);
        },
    };
    let n = raw.wrapping_add(base);
    proof {
        assert(n == wrap_add(raw, base));
    }
    let ghost p_syms = r.pos();
    let mut rule: Vec<u32> = Vec::new();
    let mut j: u32 = 0;
    while j < n
        invariant
            r.wf(),
            r.source() == old(r).source(),
            j <= n,
            rule.len() == j as int,
            dec_symbols(bits, p_syms, j as int, order) == Some((rule@, r.pos())),
        decreases n - j,
    {
        let s = match read_symbol(r, order) {
            Ok(s) => s,
            Err(e) => {
                proof {
                    assert(dec_symbols(bits, p_syms, j as int + 1, order) is None);
                    lemma_dec_symbols_none(bits, p_syms, j as int + 1, n as int, order);
                }
                return Err(e);
            },
        };
        rule.push(s);
        j = j + 1;
        proof {
            assert(dec_symbols(bits, p_syms, j as int, order) == Some((rule@, r.pos())));
        }
    }
    Ok(rule)
}

/// Decode a grammar from a byte stream. Mirrors [`spec_decode`] exactly: the
/// call succeeds if and only if every field it reads lies within the stream.
pub fn decode_stream(data: &[u8], order: ByteOrder, range_reduced: bool) -> (r: Result<Vec<Vec<u32>>, CodecError>)
    ensures
        match r {
            Ok(g) => spec_decode(data@, order, range_reduced) == Some(g.deep_view()),
            Err(e) => e == CodecError::UnexpectedEndOfStream
                && spec_decode(data@, order, range_reduced) is None,
        },
{
    let ghost bits = stream_bits(data@);
    let mut reader = BitReader::new(data);
    let count = match reader.read_u32(order) {
        Ok(v) => v,
        Err(e) => {
            return Err(e);
        },
    };
    let base: u32;
    if range_reduced {
        let min_len = match reader.read_u32(order) {
            Ok(v) => v,
            Err(e) => {
                return Err(e);
            },
        };
        let _max_len = match reader.read_u32(order) {
            Ok(v) => v,
            Err(e) => {
                return Err(e);
            },
        };
        base = min_len;
    } else {
        base = 0;
    }
    let ghost p_rules = reader.pos();
    proof {
        assert(spec_decode(data@, order, range_reduced) == (match dec_rules(bits, p_rules, count as int, base, order) {
            Some((rs, _)) => Some(rs),
            None => None,
        }));
    }
    let mut rules: Vec<Vec<u32>> = Vec::new();
    let mut i: u32 = 0;
    while i < count
        invariant
            reader.wf(),
            reader.source() == data@,
            bits == stream_bits(data@),
            i <= count,
            rules.len() == i as int,
            dec_rules(bits, p_rules, i as int, base, order) == Some((rules.deep_view(), reader.pos())),
            spec_decode(data@, order, range_reduced) == (match dec_rules(bits, p_rules, count as int, base, order) {
                Some((rs, _)) => Some(rs),
                None => None,
            }),
        decreases count - i,
    {
        let rule = match read_rule(&mut reader, base, order) {
            Ok(rule) => rule,
            Err(e) => {
                proof {
                    assert(dec_rules(bits, p_rules, i as int + 1, base, order) is None);
                    lemma_dec_rules_none(bits, p_rules, i as int + 1, count as int, base, order);
                }
                return Err(e);
            },
        };
        let ghost old_rules = rules.deep_view();
        let ghost rule_view = rule@;
        rules.push(rule);
        i = i + 1;
        proof {
            assert(rules.deep_view() =~~= old_rules.push(rule_view));
            assert(dec_rules(bits, p_rules, i as int, base, order) == Some((rules.deep_view(), reader.pos())));
        }
    }
    Ok(rules)
}

/// Encode a grammar to a byte stream: the rule count, for the range-reduced
/// variant the folded minimum and maximum rule length, then per rule its
/// length field and symbols, zero-padded to a byte boundary.
#[verifier::loop_isolation(false)]
#[verifier::rlimit(60)]
pub fn encode_stream(g: &Vec<Vec<u32>>, order: ByteOrder, range_reduced: bool) -> (r: Vec<u8>)
    requires
        grammar_fits(g.deep_view()),
    ensures
        stream_bits(r@) == encoded_bits(g.deep_view(), order, range_reduced),
        8 * r@.len() == encoded_bits(g.deep_view(), order, range_reduced).len(),
{
    let ghost gs = g.deep_view();
    proof {
        assert(gs.len() == g@.len());
    }
    let mut w = BitWriter::new();
    let count = g.len() as u32;
    w.write_u32(count, order);
    let base: u32;
    if range_reduced {
        let mut mn: u32 = u32::MAX;
        let mut mx: u32 = 0;
        let mut k: usize = 0;
        while k < g.len()
            invariant
                k <= g.len(),
                mn == min_len_fold(gs, k as int),
                mx == max_len_fold(gs, k as int),
            decreases g.len() - k,
        {
            proof {
                assert(gs[k as int] =~= g@[k as int]@);
            }
            let l = g[k].len() as u32;
            if l < mn {
                mn = l;
            }
            if l > mx {
                mx = l;
            }
            k = k + 1;
        }
        w.write_u32(mn, order);
        w.write_u32(mx, order);
        base = mn;
    } else {
        base = 0;
    }
    proof {
        assert(w.bits() =~= header_bits(gs, order, range_reduced));
        assert(base == length_base(gs, range_reduced));
    }
    let ghost hb = header_bits(gs, order, range_reduced);
    let mut i: usize = 0;
    while i < g.len()
        invariant
            i <= g.len(),
            w.wf(),
            w.bits() == hb + rules_bits(gs, i as int, base, order),
        decreases g.len() - i,
    {
        proof {
            assert(gs[i as int] =~= g@[i as int]@);
            if range_reduced {
                lemma_min_fold_le(gs, gs.len() as int, i as int);
            }
        }
        let rule = &g[i];
        let rl = rule.len() as u32;
        w.write_u32(rl - base, order);
        let ghost rb = w.bits();
        let mut j: usize = 0;
        while j < rule.len()
            invariant
                j <= rule.len(),
                w.wf(),
                w.bits() == rb + symbols_bits(gs[i as int], j as int, order),
            decreases rule.len() - j,
        {
            write_symbol(&mut w, rule[j], order);
            j = j + 1;
            proof {
                assert(w.bits() =~= rb + symbols_bits(gs[i as int], j as int, order));
            }
        }
        i = i + 1;
        proof {
            assert(w.bits() =~= hb + rules_bits(gs, i as int, base, order));
        }
    }
    proof {
        assert(w.bits() =~= grammar_bits(gs, order, range_reduced));
    }
    w.align_to_byte();
    w.into_bytes()
}

} // verus!

use grammar_coding::coding::{from_bytes, to_bytes, Coder};
use grammar_coding::errors::CodecError;
use grammar_coding::grammar::RawVec;
use grammar_coding::{didactic, fixed, grammar_tuple, grm_decoder};

fn sample_grammar() -> Vec<Vec<u32>> {
    // rule 0 references rule 1 then emits 'a'; rule 1 emits two 'b's
    vec![vec![257, 97], vec![98, 98]]
}

#[test]
fn round_trip_fixed() {
    let g = sample_grammar();
    let bytes = fixed::encode(&g);
    assert_eq!(fixed::decode(&bytes), Ok(g));
}

#[test]
fn round_trip_range() {
    let g = sample_grammar();
    let bytes = grammar_tuple::encode(&g);
    assert_eq!(grammar_tuple::decode(&bytes), Ok(g));
}

#[test]
fn round_trip_mixed_rules() {
    // empty rules, terminal extremes, larger rule references, in both variants
    let g = vec![
        vec![],
        vec![0, 255, 256, 300, 97],
        vec![258, 258, 258],
        vec![],
        vec![1, 2, 3, 4, 5, 6, 7, 8, 9, 10, 11],
    ];
    let bytes_fixed = fixed::encode(&g);
    assert_eq!(fixed::decode(&bytes_fixed), Ok(g.clone()));
    let bytes_range = grammar_tuple::encode(&g);
    assert_eq!(grammar_tuple::decode(&bytes_range), Ok(g));
}

#[test]
fn symbol_boundary_fixed() {
    // terminal 255 and non-terminal 256 sit on either side of the
    // discriminator threshold
    let g = vec![vec![255, 256]];
    let bytes = fixed::encode(&g);
    assert_eq!(
        bytes,
        vec![1, 0, 0, 0, 2, 0, 0, 0, 127, 192, 0, 0, 0, 0]
    );
    assert_eq!(fixed::decode(&bytes), Ok(g));
}

#[test]
fn symbol_boundary_range() {
    let g = vec![vec![255, 256]];
    let bytes = grammar_tuple::encode(&g);
    assert_eq!(grammar_tuple::decode(&bytes), Ok(g));
}

#[test]
fn empty_grammar_fixed() {
    let g: Vec<Vec<u32>> = vec![];
    let bytes = fixed::encode(&g);
    assert_eq!(bytes, vec![0, 0, 0, 0]);
    assert_eq!(fixed::decode(&bytes), Ok(vec![]));
}

#[test]
fn empty_grammar_range() {
    // the min/max fold over zero rules leaves its seeds: u32::MAX and 0
    let g: Vec<Vec<u32>> = vec![];
    let bytes = grammar_tuple::encode(&g);
    assert_eq!(bytes, vec![0, 0, 0, 0, 255, 255, 255, 255, 0, 0, 0, 0]);
    assert_eq!(grammar_tuple::decode(&bytes), Ok(vec![]));
}

#[test]
fn empty_rule_fixed() {
    let g: Vec<Vec<u32>> = vec![vec![]];
    let bytes = fixed::encode(&g);
    assert_eq!(bytes, vec![1, 0, 0, 0, 0, 0, 0, 0]);
    assert_eq!(fixed::decode(&bytes), Ok(g));
}

#[test]
fn empty_rule_range() {
    let g: Vec<Vec<u32>> = vec![vec![]];
    let bytes = grammar_tuple::encode(&g);
    // count 1, min 0, max 0, offset 0
    assert_eq!(bytes, vec![0, 0, 0, 1, 0, 0, 0, 0, 0, 0, 0, 0, 0, 0, 0, 0]);
    assert_eq!(grammar_tuple::decode(&bytes), Ok(g));
}

#[test]
fn range_reduction_header() {
    // rule lengths {3, 7, 5}: header min 3 and max 7, offsets {0, 4, 2}
    let g = vec![vec![97u32; 3], vec![98u32; 7], vec![99u32; 5]];
    let bytes = grammar_tuple::encode(&g);
    assert_eq!(
        &bytes[..16],
        &[0, 0, 0, 3, 0, 0, 0, 3, 0, 0, 0, 7, 0, 0, 0, 0]
    );
    let back = grammar_tuple::decode(&bytes).unwrap();
    let lens: Vec<usize> = back.iter().map(|r| r.len()).collect();
    assert_eq!(lens, vec![3, 7, 5]);
    assert_eq!(back, g);
}

#[test]
fn truncation_fixed() {
    let g = sample_grammar();
    let bytes = fixed::encode(&g);
    for k in 0..bytes.len() {
        assert_eq!(
            fixed::decode(&bytes[..k]),
            Err(CodecError::UnexpectedEndOfStream),
            "prefix of {} bytes must fail",
            k
        );
    }
}

#[test]
fn truncation_range() {
    let g = sample_grammar();
    let bytes = grammar_tuple::encode(&g);
    for k in 0..bytes.len() {
        assert_eq!(
            grammar_tuple::decode(&bytes[..k]),
            Err(CodecError::UnexpectedEndOfStream),
            "prefix of {} bytes must fail",
            k
        );
    }
}

#[test]
fn concrete_scenario_fixed() {
    // count 2; rule 0: length 2, symbols R1 (bit 1 + index 1) and 'a'
    // (bit 0 + byte 97); rule 1: length 2, twice 'b' (bit 0 + byte 98);
    // zero-padded to a byte boundary
    let g = sample_grammar();
    let bytes = fixed::encode(&g);
    assert_eq!(
        bytes,
        vec![2, 0, 0, 0, 2, 0, 0, 0, 128, 128, 0, 0, 24, 64, 128, 0, 0, 12, 70, 32]
    );
    assert_eq!(fixed::decode(&bytes), Ok(g));
}

#[test]
fn concrete_scenario_range() {
    let g = sample_grammar();
    let bytes = grammar_tuple::encode(&g);
    assert_eq!(
        bytes,
        vec![
            0, 0, 0, 2, 0, 0, 0, 2, 0, 0, 0, 2, 0, 0, 0, 0, 128, 0, 0, 0, 152, 64, 0, 0, 0, 12,
            70, 32
        ]
    );
    assert_eq!(grammar_tuple::decode(&bytes), Ok(g));
}

#[test]
fn coder_selection_round_trip() {
    let g = sample_grammar();
    let bytes = to_bytes(&g, Coder::GrammarTuple).unwrap();
    assert_eq!(bytes, grammar_tuple::encode(&g));
    assert_eq!(from_bytes(&bytes, Coder::GrammarTuple), Ok(g));
}

#[test]
fn didactic_has_no_decoder() {
    let bytes = [0u8, 0, 0, 0];
    assert_eq!(
        from_bytes(&bytes, Coder::Didactic),
        Err(CodecError::UnsupportedFormat)
    );
}

#[test]
fn decode_error_on_garbage_tail() {
    // a count of one rule with no rule data behind it
    assert_eq!(
        fixed::decode(&[1, 0, 0, 0]),
        Err(CodecError::UnexpectedEndOfStream)
    );
    assert_eq!(
        grammar_tuple::decode(&[0, 0, 0, 1, 0, 0, 0, 0, 0, 0, 0, 0]),
        Err(CodecError::UnexpectedEndOfStream)
    );
}

#[test]
fn didactic_text_output() {
    let g = sample_grammar();
    let text = didactic::encode(&g);
    assert_eq!(text, b"R0 -> R1 a \nR1 -> b b \n".to_vec());
    let via_coder = to_bytes(&g, Coder::Didactic).unwrap();
    assert_eq!(via_coder, text);
}

#[test]
fn didactic_non_ascii_terminal() {
    // terminal 200 prints as the character U+00C8, two bytes of UTF-8
    let g = vec![vec![200u32]];
    let text = didactic::encode(&g);
    assert_eq!(text, b"R0 -> \xC3\x88 \n".to_vec());
}

#[test]
fn didactic_multi_digit_rule_numbers() {
    let g: Vec<Vec<u32>> = (0..12).map(|_| vec![]).collect();
    let text = didactic::encode(&g);
    let mut expected = String::new();
    for i in 0..12 {
        expected.push_str(&format!("R{} -> \n", i));
    }
    assert_eq!(text, expected.into_bytes());
}

#[test]
fn raw_vec_borrow_and_transfer() {
    let rv = RawVec(vec![1u32, 2, 3]);
    assert_eq!(rv.iter(), &vec![1u32, 2, 3]);
    assert_eq!(rv.to_vec(), vec![1u32, 2, 3]);
}

#[test]
fn grm_decoder_buffer_round_trip() {
    let g = sample_grammar();
    let raw = RawVec(vec![RawVec(vec![257u32, 97]), RawVec(vec![98u32, 98])]);
    let encoded = grm_decoder::encode_grammar_to_byte_vec(&raw);
    assert_eq!(encoded.iter(), &grammar_tuple::encode(&g));
    let back = grm_decoder::decode_bytes(encoded.iter()).unwrap();
    let back_plain: Vec<Vec<u32>> = back.to_vec().into_iter().map(|r| r.to_vec()).collect();
    assert_eq!(back_plain, g);
}

#[test]
fn fixed_decode_bytes_buffers() {
    let g = sample_grammar();
    let bytes = fixed::encode(&g);
    let back = fixed::decode_bytes(&bytes).unwrap();
    let back_plain: Vec<Vec<u32>> = back.to_vec().into_iter().map(|r| r.to_vec()).collect();
    assert_eq!(back_plain, g);
    match fixed::decode_bytes(&bytes[..3]) {
        Ok(_) => panic!("a three-byte prefix must not decode"),
        Err(e) => assert_eq!(e, CodecError::UnexpectedEndOfStream),
    }
}

#[test]
fn variants_are_not_interchangeable() {
    // the two wire formats carry no tag; decoding with the wrong variant
    // must not reproduce the grammar
    let g = sample_grammar();
    let bytes = fixed::encode(&g);
    assert_ne!(grammar_tuple::decode(&bytes), Ok(g));
}

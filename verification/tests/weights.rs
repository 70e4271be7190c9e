use dsi_bitstream::prelude::{
    BitRead, BitWrite, BufBitReader, BufBitWriter, GammaRead, GammaWrite, LittleEndian, WordAdapter,
};
use ngrammatic::weights::{decode_weights, weight_codes, CodeKind, WeightCode, WeightDecoder};

#[test]
fn weights_are_written_with_runs_of_ones() {
    assert_eq!(
        weight_codes(&vec![3, 1, 1, 2]),
        vec![
            WeightCode::Gamma(4),
            WeightCode::Unary(2),
            WeightCode::Unary(0),
            WeightCode::Gamma(2),
            WeightCode::Unary(1),
        ]
    );
    assert_eq!(weight_codes(&vec![]), vec![WeightCode::Gamma(0)]);
}

#[test]
fn a_final_run_of_ones_is_closed() {
    let codes = weight_codes(&vec![2, 1]);
    assert_eq!(
        codes,
        vec![WeightCode::Gamma(2), WeightCode::Unary(1), WeightCode::Unary(0), WeightCode::Gamma(1)]
    );
    assert_eq!(decode_weights(&codes), Some(vec![2, 1]));
    let ones = vec![1, 1, 1];
    assert_eq!(decode_weights(&weight_codes(&ones)), Some(ones));
}

#[test]
fn weights_read_back() {
    let weights = vec![1, 1, 1, 5, 2, 1, 7];
    assert_eq!(decode_weights(&weight_codes(&weights)), Some(weights));
    assert_eq!(decode_weights(&vec![WeightCode::Gamma(0)]), Some(vec![]));
}

#[test]
fn malformed_weight_codes() {
    assert_eq!(decode_weights(&vec![]), None);
    assert_eq!(decode_weights(&vec![WeightCode::Unary(0)]), None);
    assert_eq!(
        decode_weights(&vec![WeightCode::Gamma(1), WeightCode::Unary(0), WeightCode::Gamma(5)]),
        None
    );
    assert_eq!(decode_weights(&vec![WeightCode::Gamma(2), WeightCode::Gamma(1)]), None);
    assert_eq!(decode_weights(&vec![WeightCode::Gamma(1), WeightCode::Unary(3)]), Some(vec![4]));
}

/// Feeds the codes one at a time, as a reader of a bit stream would, and
/// checks that each is of the kind the decoder asks for.
fn read_step_by_step(codes: &[WeightCode]) -> Option<Vec<usize>> {
    let mut decoder = WeightDecoder::new();
    let mut codes = codes.iter();
    while let Some(kind) = decoder.next_kind() {
        let code = *codes.next()?;
        match (kind, code) {
            (CodeKind::Gamma, WeightCode::Gamma(_)) | (CodeKind::Unary, WeightCode::Unary(_)) => {}
            _ => return None,
        }
        decoder.feed(code);
    }
    decoder.result()
}

#[test]
fn weights_read_one_code_at_a_time() {
    let weights = vec![4, 1, 1, 1, 3, 2];
    let codes = weight_codes(&weights);
    assert_eq!(read_step_by_step(&codes), Some(weights));
    assert_eq!(read_step_by_step(&[WeightCode::Gamma(0)]), Some(vec![]));
    assert_eq!(read_step_by_step(&[WeightCode::Gamma(1), WeightCode::Unary(0), WeightCode::Gamma(3)]), None);
    let decoder = WeightDecoder::new();
    assert_eq!(decoder.next_kind(), Some(CodeKind::Gamma));
}

#[test]
fn weights_through_a_bit_stream() {
    let weights = vec![3, 1, 1, 2, 5, 1, 9];
    let mut writer = BufBitWriter::<LittleEndian, _>::new(WordAdapter::<u32, _>::new(Vec::<u8>::new()));
    for code in weight_codes(&weights) {
        match code {
            WeightCode::Gamma(value) => writer.write_gamma(value).unwrap(),
            WeightCode::Unary(value) => writer.write_unary(value).unwrap(),
        };
    }
    let mut bytes = writer.into_inner().unwrap().into_inner();
    bytes.extend_from_slice(&[0; 16]);
    let mut reader = BufBitReader::<LittleEndian, _>::new(WordAdapter::<u32, _>::new(bytes.as_slice()));
    let mut decoder = WeightDecoder::new();
    while let Some(kind) = decoder.next_kind() {
        let code = match kind {
            CodeKind::Gamma => WeightCode::Gamma(reader.read_gamma().unwrap()),
            CodeKind::Unary => WeightCode::Unary(reader.read_unary().unwrap()),
        };
        decoder.feed(code);
    }
    assert_eq!(decoder.result(), Some(weights));
}

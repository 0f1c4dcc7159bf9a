use hatanaka::decoder::decode_field;
use hatanaka::error::CodecError;
use hatanaka::numdiff::NumKernel;
use hatanaka::textdiff::TextKernel;

fn seeded(max_order: usize, order: usize, seed: i64) -> NumKernel {
    let mut k = NumKernel::new(max_order);
    k.initialize(order, seed).unwrap();
    k
}

#[test]
fn second_order_accumulation() {
    // initialize(2, 100) then two second-order differences of 5:
    // the first step runs at order 1 (100 + 5), the second at order 2
    // (first difference 5 + 5 = 10, value 105 + 10).
    let mut k = seeded(8, 2, 100);
    assert_eq!(k.decode(5), Ok(105));
    assert_eq!(k.decode(5), Ok(115));
    assert_eq!(k.levels, vec![115, 10, 5]);
}

#[test]
fn third_order_recovery() {
    let mut k = seeded(6, 3, 126298057858);
    assert_eq!(k.decode(-15603288), Ok(126282454570));
    assert_eq!(k.decode(521089), Ok(126267372371));
    assert_eq!(k.decode(-752), Ok(126252810509));
    assert_eq!(k.decode(1575419284), Ok(127814188268));
    assert_eq!(k.decode(-3150848707), Ok(127800656941));
    assert_eq!(k.decode(1575424909), Ok(127787641437));
    assert_eq!(k.decode(-135), Ok(127775141621));
}

#[test]
fn order_zero_is_identity() {
    let mut d = seeded(8, 0, 7);
    assert_eq!(d.decode(42), Ok(42));
    assert_eq!(d.decode(-3), Ok(-3));
    let mut e = seeded(8, 0, 7);
    assert_eq!(e.encode(42), Ok(42));
    assert_eq!(e.encode(-3), Ok(-3));
}

#[test]
fn history_length_reaches_order_plus_one() {
    let mut k = seeded(8, 3, 10);
    assert_eq!(k.levels.len(), 1);
    let mut lens = Vec::new();
    for d in [1, 2, 3, 4, 5, 6] {
        k.decode(d).unwrap();
        lens.push(k.levels.len());
    }
    assert_eq!(lens, vec![2, 3, 4, 4, 4, 4]);
}

#[test]
fn reinit_reproduces_seed() {
    let mut k = seeded(8, 3, 10);
    k.decode(4).unwrap();
    k.decode(4).unwrap();
    assert_eq!(decode_field(&mut k, b"2&500"), Ok(Some(500)));
    assert_eq!(k.order, 2);
    assert_eq!(k.levels, vec![500]);
    assert_eq!(decode_field(&mut k, b"0"), Ok(Some(500)));
}

#[test]
fn blank_token_touches_nothing() {
    let mut k = seeded(8, 3, 10);
    k.decode(4).unwrap();
    let before = k.levels.clone();
    assert_eq!(decode_field(&mut k, b""), Ok(None));
    assert_eq!(k.levels, before);
    assert_eq!(decode_field(&mut k, b"1"), Ok(Some(19)));
}

#[test]
fn order_above_maximum_is_refused() {
    let mut k = NumKernel::new(3);
    assert_eq!(k.initialize(4, 1), Err(CodecError::InvalidOrder));
    assert_eq!(decode_field(&mut k, b"5&1"), Err(CodecError::InvalidOrder));
    assert!(k.levels.is_empty());
}

#[test]
fn difference_before_seed_is_refused() {
    let mut k = NumKernel::new(3);
    assert_eq!(k.decode(1), Err(CodecError::UninitializedKernel));
    assert_eq!(k.encode(1), Err(CodecError::UninitializedKernel));
    assert_eq!(decode_field(&mut k, b"17"), Err(CodecError::UninitializedKernel));
}

#[test]
fn integration_overflow_is_refused() {
    let mut k = seeded(3, 1, i64::MAX);
    assert_eq!(k.decode(1), Err(CodecError::NumericOverflow));
    assert_eq!(k.levels, vec![i64::MAX]);
    let mut e = seeded(3, 1, i64::MIN);
    assert_eq!(e.encode(1), Err(CodecError::NumericOverflow));
}

#[test]
fn malformed_token_is_refused() {
    let mut k = seeded(3, 1, 0);
    assert_eq!(decode_field(&mut k, b"12x"), Err(CodecError::MalformedRecord));
    assert_eq!(decode_field(&mut k, b"3&"), Err(CodecError::MalformedRecord));
}

#[test]
fn numeric_round_trip() {
    let mut enc = seeded(8, 3, 1000);
    let mut dec = seeded(8, 3, 1000);
    for v in [1005, 1015, 1030, 1028, -4, 0, 77777777777] {
        let t = enc.encode(v).unwrap();
        assert_eq!(dec.decode(t), Ok(v));
        assert_eq!(enc.levels, dec.levels);
    }
}

#[test]
fn text_overlay_scenario() {
    let mut k = TextKernel::new(b"ABCDE".to_vec());
    assert_eq!(k.decode(b"  X  "), b"ABXDE".to_vec());
    assert_eq!(k.line, b"ABXDE".to_vec());
}

#[test]
fn text_erase_and_extend() {
    let mut k = TextKernel::new(b"ABC".to_vec());
    assert_eq!(k.decode(b"&"), b" BC".to_vec());
    assert_eq!(k.decode(b"    Z&Y"), b" BC Z Y".to_vec());
    k.initialize(b"Q".to_vec());
    assert_eq!(k.decode(b""), b"Q".to_vec());
}

#[test]
fn text_round_trip() {
    let mut enc = TextKernel::new(b" 2022 03 04  0  0  0.0000000".to_vec());
    let mut dec = TextKernel::new(b" 2022 03 04  0  0  0.0000000".to_vec());
    let lines: [&[u8]; 3] = [
        b" 2022 03 04  0  0 30.0000000",
        b" 2022 03 04  0  1  0.0000000  0  2",
        b" 2022 03 04  0  1 30.0000000  0  2",
    ];
    for line in lines {
        let t = enc.encode(line);
        assert_eq!(dec.decode(&t), line.to_vec());
    }
    let t = enc.encode(b" 2022");
    assert_eq!(t.len(), 34);
    let mut padded = b" 2022".to_vec();
    padded.extend_from_slice(&[b' '; 29]);
    assert_eq!(dec.decode(&t), padded);
}

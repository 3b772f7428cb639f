use chewing::lm::static_lm::{LoadMode, StaticLm, StaticLmCompiler, StaticLmError};
use chewing::model::WordId;

const MIN_LOGLOG: f64 = -0.3;
const MAX_LOGLOG: f64 = 1.3;

fn quantize_log_prob(log10prob: f64) -> u8 {
    let loglog = (-log10prob).log10().clamp(MIN_LOGLOG, MAX_LOGLOG);
    ((loglog - MIN_LOGLOG) / (MAX_LOGLOG - MIN_LOGLOG) * 255.0) as u8
}

fn unquantize_log_prob(quantum: u8) -> f64 {
    let loglog = (quantum as f64) / 255.0 * (MAX_LOGLOG - MIN_LOGLOG) + MIN_LOGLOG;
    -(10.0_f64.powf(loglog))
}

fn get(lm: &StaticLm, row: u32, col: u32) -> Option<f64> {
    lm.get_quantized(row, col).map(unquantize_log_prob)
}

fn insert(c: &mut StaticLmCompiler, row: u32, col: u32, log10prob: f64) {
    c.insert(WordId(row), WordId(col), quantize_log_prob(log10prob)).unwrap();
}

#[test]
fn quantize_unquantize() {
    let e = 0.6;
    assert!((0.0 - unquantize_log_prob(quantize_log_prob(0.0))).abs() < e);
    assert!((-1.0 - unquantize_log_prob(quantize_log_prob(-1.0))).abs() < e);
    assert!((-5.0 - unquantize_log_prob(quantize_log_prob(-5.0))).abs() < e);
    assert!((-10.0 - unquantize_log_prob(quantize_log_prob(-10.0))).abs() < e);
}

fn roundtrip(mode: LoadMode) -> StaticLm {
    let mut compiler = StaticLmCompiler::new();
    insert(&mut compiler, 0, 0, 0.01_f64.log10());
    insert(&mut compiler, 1, 1, 0.02_f64.log10());
    insert(&mut compiler, 2, 2, 0.03_f64.log10());
    insert(&mut compiler, 3, 1, 0.04_f64.log10());
    insert(&mut compiler, 3, 2, 0.05_f64.log10());
    let buf = compiler.to_bytes();
    StaticLm::from_bytes(&buf, mode).unwrap()
}

fn check_roundtrip(lm: &StaticLm) {
    let entries = [
        (0, 0, 0.01_f64.log10()),
        (1, 1, 0.02_f64.log10()),
        (2, 2, 0.03_f64.log10()),
        (3, 1, 0.04_f64.log10()),
        (3, 2, 0.05_f64.log10()),
    ];
    for &(row, col, expected_log10) in &entries {
        let got = get(lm, row, col).expect(&format!("missing ({}, {})", row, col));
        let err = (got - expected_log10).abs();
        assert!(
            err < 0.1,
            "({},{}) expected ~{}, got {} (err={})",
            row,
            col,
            expected_log10,
            got,
            err
        );
    }
    assert_eq!(None, get(lm, 2, 1));
    assert_eq!(None, get(lm, 0, 3));
    assert_eq!(None, get(lm, 5, 0));
}

#[test]
fn eager_mode_roundtrip() {
    check_roundtrip(&roundtrip(LoadMode::Eager));
}

#[test]
fn lazy_mode_roundtrip() {
    check_roundtrip(&roundtrip(LoadMode::Lazy));
}

#[test]
fn eager_and_lazy_agree() {
    let eager = roundtrip(LoadMode::Eager);
    let lazy = roundtrip(LoadMode::Lazy);
    for row in 0..4 {
        for col in 0..4 {
            assert_eq!(
                eager.get_quantized(row, col),
                lazy.get_quantized(row, col),
                "mismatch at ({}, {})",
                row,
                col
            );
        }
    }
    assert_eq!(eager.get_quantized(0, 1), lazy.get_quantized(0, 1));
    assert_eq!(eager.get_quantized(2, 0), lazy.get_quantized(2, 0));
    assert_eq!(eager.get_quantized(100, 0), lazy.get_quantized(100, 0));
}

#[test]
fn delta_encoding_correctness() {
    let mut compiler = StaticLmCompiler::new();
    for &col in &[100u32, 105, 200, 201, 5000] {
        insert(&mut compiler, 10, col, -2.0);
    }
    let buf = compiler.to_bytes();
    for mode in [LoadMode::Eager, LoadMode::Lazy] {
        let lm = StaticLm::from_bytes(&buf, mode).unwrap();
        for &col in &[100u32, 105, 200, 201, 5000] {
            assert!(get(&lm, 10, col).is_some(), "missing column {} in {:?} mode", col, mode);
        }
        assert!(get(&lm, 10, 99).is_none());
        assert!(get(&lm, 10, 101).is_none());
        assert!(get(&lm, 10, 5001).is_none());
    }
}

#[test]
fn dcsr_compression_columns() {
    let mut compiler = StaticLmCompiler::new();
    for col in 0..1000u32 {
        insert(&mut compiler, 0, col, -3.0);
    }
    for col in (1000..2000u32).step_by(2) {
        insert(&mut compiler, 1, col, -4.0);
    }
    let buf = compiler.to_bytes();
    for mode in [LoadMode::Eager, LoadMode::Lazy] {
        let lm = StaticLm::from_bytes(&buf, mode).unwrap();
        assert!(get(&lm, 0, 0).is_some(), "mode {:?}", mode);
        assert!(get(&lm, 0, 999).is_some(), "mode {:?}", mode);
        assert!(get(&lm, 1, 1000).is_some(), "mode {:?}", mode);
        assert!(get(&lm, 1, 1998).is_some(), "mode {:?}", mode);
        assert!(get(&lm, 1, 1001).is_none(), "mode {:?}", mode);
    }
}

#[test]
fn lm_file_bytes_are_delta_encoded() {
    let mut compiler = StaticLmCompiler::new();
    compiler.insert(WordId(0), WordId(300), 7).unwrap();
    compiler.insert(WordId(0), WordId(5), 9).unwrap();
    compiler.insert(WordId(1), WordId(2), 0).unwrap();
    let buf = compiler.to_bytes();
    let mut expected: Vec<u8> = b"CHLM".to_vec();
    expected.push(0); // version
    expected.extend_from_slice(&0u32.to_le_bytes()); // flags
    expected.extend_from_slice(&2u32.to_le_bytes()); // rows
    expected.extend_from_slice(&2u64.to_le_bytes()); // values
    expected.extend_from_slice(&3u64.to_le_bytes()); // column index bytes
    for x in [0u32, 2, 2] {
        expected.extend_from_slice(&x.to_le_bytes());
    }
    for x in [0u32, 3, 3] {
        expected.extend_from_slice(&x.to_le_bytes());
    }
    // 5, then 295 = 0b10_0100111 as a varint
    expected.extend_from_slice(&[5, 0xa7, 0x02]);
    expected.extend_from_slice(&[9, 7]);
    assert_eq!(expected, buf);
}

#[test]
fn first_value_is_kept_and_zero_is_dropped() {
    let mut compiler = StaticLmCompiler::new();
    compiler.insert(WordId(2), WordId(4), 11).unwrap();
    compiler.insert(WordId(2), WordId(4), 99).unwrap();
    compiler.insert(WordId(1), WordId(1), 0).unwrap();
    let lm = StaticLm::from_bytes(&compiler.to_bytes(), LoadMode::Lazy).unwrap();
    assert_eq!(Some(11), lm.get_quantized(2, 4));
    assert_eq!(None, lm.get_quantized(1, 1));
    assert_eq!(None, lm.get_quantized(3, 0));
}

#[test]
fn empty_model_has_nothing() {
    let lm = StaticLm::new();
    assert_eq!(None, lm.get_quantized(0, 0));
    let lm = StaticLm::from_bytes(&StaticLmCompiler::new().to_bytes(), LoadMode::Eager).unwrap();
    assert_eq!(None, lm.get_quantized(0, 0));
}

#[test]
fn lm_file_errors() {
    assert_eq!(
        Some(StaticLmError::UnknownFormat),
        StaticLm::from_bytes(b"CHSD\0", LoadMode::Eager).err()
    );
    let mut buf = StaticLmCompiler::new().to_bytes();
    buf[4] = 1;
    assert_eq!(
        Some(StaticLmError::UnknownVersion),
        StaticLm::from_bytes(&buf, LoadMode::Lazy).err()
    );
    assert!(matches!(
        StaticLm::from_bytes(b"CHL", LoadMode::Lazy),
        Err(StaticLmError::Bare(_))
    ));
    // Columns of a row out of order.
    let mut compiler = StaticLmCompiler::new();
    compiler.insert(WordId(0), WordId(1), 3).unwrap();
    compiler.insert(WordId(0), WordId(2), 3).unwrap();
    let mut buf = compiler.to_bytes();
    let deltas_at = buf.len() - 4;
    buf[deltas_at + 1] = 0;
    assert_eq!(Some(StaticLmError::Corrupt), StaticLm::from_bytes(&buf, LoadMode::Eager).err());
    assert_eq!(Some(StaticLmError::Corrupt), StaticLm::from_bytes(&buf, LoadMode::Lazy).err());
}

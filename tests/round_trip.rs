use hatanaka::decoder::decode_records;
use hatanaka::encoder::{encode_obs, encode_records, encode_value, Encoder};
use hatanaka::fields::{format_int, parse_fixed};
use hatanaka::numdiff::NumKernel;
use hatanaka::registry::SatelliteKernels;
use hatanaka::textdiff::TextKernel;
use hatanaka::error::CodecError;
use hatanaka::header::{HeaderInfo, SystemCodes};

fn header(crinex: u8, rinex: u8, codes: Vec<SystemCodes>) -> HeaderInfo {
    HeaderInfo {
        crinex_version: Some(crinex),
        rinex_major: rinex,
        observation: true,
        system: Some(b'G'),
        codes,
    }
}

fn modern() -> HeaderInfo {
    header(
        3,
        3,
        vec![SystemCodes { system: b'G', count: 3 }, SystemCodes { system: b'R', count: 2 }],
    )
}

fn legacy() -> HeaderInfo {
    header(1, 2, vec![SystemCodes { system: b'G', count: 3 }])
}

fn to_lines(text: &[u8]) -> Vec<Vec<u8>> {
    let mut lines: Vec<Vec<u8>> = text.split(|c| *c == b'\n').map(|l| l.to_vec()).collect();
    assert_eq!(lines.pop(), Some(Vec::new()));
    lines
}

fn joined(lines: &[&str]) -> Vec<u8> {
    let mut out = Vec::new();
    for l in lines {
        out.extend_from_slice(l.as_bytes());
        out.push(b'\n');
    }
    out
}

const MODERN: [&str; 11] = [
        "> 2022 03 04  0  0  0.0000000  0  2       0.000000000000",
        "G01  20832393.682   109474991.854 8        49.500  ",
        "R07  19592643.312   104733904.039  ",
        "> 2022 03 04  0  0 30.0000000  0  2      -0.000000001459",
        "G01  20845343.762   109543044.902 8        49.750 1",
        "R07                 104705702.957  ",
        "> 2022 03 04  0  1  0.0000000  3  2",
        "THIS IS A SPECIAL RECORD",
        "ANOTHER ONE                                                 COMMENT",
        "> 2022 03 04  0  1 30.0000000  0  1",
        "G01  20871243.922   109679150.998          50.250  ",
];

const LEGACY: [&str; 19] = [
        " 21 01 01 00 00 00.0000000  0 14G07G08G10G13G15G16G18G20G21G23G26G27 0.000001520",
        "                                G29G30",
        "  53187499.831     8090709.584    16186497.579  ",
        "  79880033.272    28949223.669     9750977.240  ",
        "  58697068.890    31364797.839    74404053.465  ",
        "   7118263.334    81860714.159    87858149.977  ",
        "  81004216.501     9365346.217    80788049.615  ",
        "   6998696.980    35257754.828    74214515.120  ",
        "  21866963.147    58078437.270    74634014.884  ",
        "  78815325.120    75339363.384    94699549.231  ",
        "  14661115.787    80807365.009    29513916.231  ",
        "  15484337.155    97841825.065    78579087.927  ",
        "  82860363.700    66309095.391    76936739.668  ",
        "  62478793.967    50191052.336    32352260.525  ",
        "  25886670.375    10638321.147    42121836.719  ",
        "  67680211.233    47708359.879    64262485.792  ",
        " 21 01 01 00 00 30.0000000  0  2G07G08                               0.000001530",
        "    123456.789 5                        -0.005  ",
        "    123456.790           0.007          -0.006  ",
];

#[test]
fn modern_round_trip() {
    let rinex = joined(&MODERN);
    let compact = encode_records(modern(), 8, 3, &to_lines(&rinex)).unwrap();
    let back = decode_records(modern(), 8, &to_lines(&compact)).unwrap();
    assert_eq!(String::from_utf8(back.clone()).unwrap(), String::from_utf8(rinex).unwrap());
    let again = encode_records(modern(), 8, 3, &to_lines(&back)).unwrap();
    assert_eq!(again, compact);
}

#[test]
fn modern_compact_form() {
    let rinex = joined(&MODERN[..3]);
    let compact = encode_records(modern(), 8, 3, &to_lines(&rinex)).unwrap();
    assert_eq!(
        String::from_utf8(compact).unwrap(),
        "> 2022 03 04  0  0  0.0000000  0  2      G01R07\n\
         3&0\n\
         3&20832393682 3&109474991854 3&49500 &&&8&&\n\
         3&19592643312 3&104733904039 &&&&\n"
    );
}

#[test]
fn legacy_round_trip_keeps_wrapping() {
    let rinex = joined(&LEGACY);
    let compact = encode_records(legacy(), 8, 3, &to_lines(&rinex)).unwrap();
    let compact_lines = to_lines(&compact);
    // the fourteen identifiers travel on one compact epoch line
    assert_eq!(
        compact_lines[0],
        b"&21 01 01 00 00 00.0000000  0 14G07G08G10G13G15G16G18G20G21G23G26G27G29G30".to_vec()
    );
    let back = decode_records(legacy(), 8, &compact_lines).unwrap();
    assert_eq!(String::from_utf8(back.clone()).unwrap(), String::from_utf8(rinex).unwrap());
    let again = encode_records(legacy(), 8, 3, &to_lines(&back)).unwrap();
    assert_eq!(again, compact);
}

#[test]
fn encoder_refusals() {
    let mut h = modern();
    h.observation = false;
    assert_eq!(Encoder::new(h, 8, 3).err(), Some(CodecError::UnsupportedRecordType));
    assert_eq!(Encoder::new(modern(), 2, 3).err(), Some(CodecError::InvalidOrder));
    let mut e = Encoder::new(modern(), 8, 3).unwrap();
    assert_eq!(e.encode_line(b"2022 03 04"), Err(CodecError::MalformedEpochHeader));
    let mut e = Encoder::new(modern(), 8, 3).unwrap();
    e.encode_line(b"> 2022 03 04  0  0  0.0000000  0  1").unwrap();
    assert_eq!(e.encode_line(b"G01  2083239x.682"), Err(CodecError::MalformedRecord));
    let mut e = Encoder::new(modern(), 8, 3).unwrap();
    e.encode_line(b"> 2022 03 04  0  0  0.0000000  0  1").unwrap();
    assert_eq!(e.encode_line(b"E11         1.000"), Err(CodecError::UnknownConstellation));
    let cut: Vec<Vec<u8>> = vec![b"> 2022 03 04  0  0  0.0000000  0  1".to_vec()];
    assert_eq!(encode_records(modern(), 8, 3, &cut), Err(CodecError::TruncatedStream));
}

#[test]
fn value_tokens() {
    let mut k = NumKernel::new(8);
    assert_eq!(encode_value(&mut k, Some(1520), 3), b"3&1520".to_vec());
    assert_eq!(encode_value(&mut k, Some(1540), 3), b"20".to_vec());
    assert_eq!(encode_value(&mut k, Some(1500), 3), b"-60".to_vec());
    let before = k.levels.clone();
    assert_eq!(encode_value(&mut k, None, 3), Vec::<u8>::new());
    assert_eq!(k.levels, before);
    let mut z = NumKernel::new(8);
    assert_eq!(encode_value(&mut z, Some(7), 0), b"0&7".to_vec());
    assert_eq!(encode_value(&mut z, Some(9), 0), b"9".to_vec());
    let mut w = NumKernel::new(8);
    encode_value(&mut w, Some(i64::MIN), 3);
    assert_eq!(
        encode_value(&mut w, Some(i64::MAX), 3),
        b"3&9223372036854775807".to_vec()
    );
}

#[test]
fn compact_observation_line() {
    let mut entry = SatelliteKernels {
        key: 1,
        values: vec![NumKernel::new(8), NumKernel::new(8), NumKernel::new(8)],
        flags: TextKernel::new(Vec::new()),
    };
    let out = encode_obs(&mut entry, &vec![Some(100), None, Some(-5)], b"  1   ", 3, 8);
    assert_eq!(out, b"3&100  3&-5 &&1&&&".to_vec());
    let out = encode_obs(&mut entry, &vec![Some(101), None, Some(-5)], b"  1   ", 3, 8);
    assert_eq!(out, b"1  0".to_vec());
}

#[test]
fn fixed_point_fields() {
    assert_eq!(parse_fixed(b"  20832393.682", 3), Some(20832393682));
    assert_eq!(parse_fixed(b"        -0.005", 3), Some(-5));
    assert_eq!(parse_fixed(b" 0.000000001520", 12), Some(1520));
    assert_eq!(parse_fixed(b".500", 3), Some(500));
    assert_eq!(parse_fixed(b"1.00", 3), None);
    assert_eq!(parse_fixed(b"12345", 3), None);
    assert_eq!(parse_fixed(b"1x.000", 3), None);
    assert_eq!(parse_fixed(b"", 3), None);
    assert_eq!(format_int(0), b"0".to_vec());
    assert_eq!(format_int(-1459), b"-1459".to_vec());
    assert_eq!(format_int(i64::MIN), b"-9223372036854775808".to_vec());
}

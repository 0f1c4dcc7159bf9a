use hatanaka::decoder::{decode_file, decode_records, open_session, Decoder, Phase};
use hatanaka::epoch::{epoch_count, epoch_flag, format_epoch};
use hatanaka::error::CodecError;
use hatanaka::header::{codec_header_lines, codec_line, is_end_of_header, keep_header_line, HeaderInfo, SystemCodes};

fn modern_header() -> HeaderInfo {
    HeaderInfo {
        crinex_version: Some(3),
        rinex_major: 3,
        observation: true,
        system: Some(b'M'),
        codes: vec![
            SystemCodes { system: b'G', count: 3 },
            SystemCodes { system: b'R', count: 2 },
        ],
    }
}

fn legacy_header(count: usize) -> HeaderInfo {
    HeaderInfo {
        crinex_version: Some(1),
        rinex_major: 2,
        observation: true,
        system: Some(b'G'),
        codes: vec![SystemCodes { system: b'G', count }],
    }
}

fn text(out: Result<Vec<u8>, CodecError>) -> String {
    String::from_utf8(out.unwrap()).unwrap()
}

#[test]
fn modern_stream_with_event() {
    let mut d = Decoder::new(modern_header(), 8).unwrap();
    let mut run = |line: &str| text(d.decode_line(line.as_bytes()));
    assert_eq!(run("> 2022 03 04  0  0  0.0000000  0  2      G01R07"), "");
    assert_eq!(run("3&0"), "> 2022 03 04  0  0  0.0000000  0  2       0.000000000000\n");
    assert_eq!(
        run("3&20832393682 3&109474991854 3&49500 &&&8"),
        "G01  20832393.682   109474991.854 8        49.500  \n"
    );
    assert_eq!(run("3&19592643312 3&104733904039"), "R07  19592643.312   104733904.039  \n");
    assert_eq!(run("                   3"), "");
    assert_eq!(run("0"), "> 2022 03 04  0  0 30.0000000  0  2       0.000000000000\n");
    assert_eq!(
        run("12950080 68053048 250"),
        "G01  20845343.762   109543044.902 8        49.750  \n"
    );
    assert_eq!(run("-5366480 -28201082"), "R07  19587276.832   104705702.957  \n");
    // event flag 3 with two special records: forwarded as they are
    assert_eq!(run("> 2022 03 04  0  1  0.0000000  3  2"), "> 2022 03 04  0  1  0.0000000  3  2\n");
    assert_eq!(run("THIS IS AN ARBITRARY SPECIAL RECORD"), "THIS IS AN ARBITRARY SPECIAL RECORD\n");
    assert_eq!(run("3&999 5 6"), "3&999 5 6\n");
    // the kernels continue where they stood before the event
    assert_eq!(run("                   3           0         G01R07"), "");
    assert_eq!(run("0"), "> 2022 03 04  0  1 30.0000000  0  2       0.000000000000\n");
    assert_eq!(
        run("12950080 68053048 250"),
        "G01  20871243.922   109679150.998 8        50.250  \n"
    );
    assert_eq!(run("-5366480 -28201082"), "R07  19576543.872   104649300.793  \n");
    assert_eq!(d.finish(), Ok(()));
}

#[test]
fn event_records_touch_no_kernel() {
    let mut d = Decoder::new(modern_header(), 8).unwrap();
    d.decode_line(b"> 2022 03 04  0  0  0.0000000  0  1      G01").unwrap();
    d.decode_line(b"3&5").unwrap();
    d.decode_line(b"3&1 3&2 3&3").unwrap();
    let clock = d.clock.levels.clone();
    let satellites = d.registry.entries.len();
    let out = d.decode_line(b"> 2022 03 04  0  1  0.0000000  3  2").unwrap();
    assert_eq!(out, b"> 2022 03 04  0  1  0.0000000  3  2\n".to_vec());
    assert_eq!(d.phase, Phase::Event);
    assert_eq!(d.decode_line(b"1 2 3").unwrap(), b"1 2 3\n".to_vec());
    assert_eq!(d.decode_line(b"").unwrap(), b"\n".to_vec());
    assert_eq!(d.phase, Phase::Epoch);
    assert_eq!(d.clock.levels, clock);
    assert_eq!(d.registry.entries.len(), satellites);
    assert_eq!(d.registry.entries[0].values[0].levels, vec![1]);
}

#[test]
fn blank_fields_stay_blank() {
    let mut d = Decoder::new(modern_header(), 8).unwrap();
    let mut run = |line: &str| d.decode_line(line.as_bytes());
    assert_eq!(text(run("> 2022 03 04  0  0  0.0000000  0  1      G05")), "");
    assert_eq!(text(run("")), "> 2022 03 04  0  0  0.0000000  0  1\n");
    assert_eq!(
        text(run("3&100  3&300")),
        "G05         0.100                           0.300  \n"
    );
    assert_eq!(text(run("                   3")), "");
    assert_eq!(text(run("")), "> 2022 03 04  0  0 30.0000000  0  1\n");
    assert_eq!(
        text(run("5  7")),
        "G05         0.105                           0.307  \n"
    );
    assert_eq!(text(run("                   4")), "");
    assert_eq!(text(run("")), "> 2022 03 04  0  0 40.0000000  0  1\n");
    assert_eq!(run("5 9 5"), Err(CodecError::UninitializedKernel));
}

#[test]
fn legacy_stream() {
    let mut d = Decoder::new(legacy_header(6), 8).unwrap();
    let mut run = |line: &str| text(d.decode_line(line.as_bytes()));
    assert_eq!(run("&21 01 01 00 00 00.0000000  0  2G07G08"), "");
    assert_eq!(
        run("3&1520"),
        " 21 01 01 00 00 00.0000000  0  2G07G08                               0.000001520\n"
    );
    assert_eq!(
        run("3&1 3&2 3&3 3&4 3&5 3&6 1234"),
        "         0.00112         0.00234         0.003           0.004           0.005  \n         0.006  \n"
    );
    assert_eq!(
        run("3&-1"),
        "        -0.001                                                                  \n                \n"
    );
    assert_eq!(d.finish(), Ok(()));
}

#[test]
fn legacy_epoch_wraps_twelve_satellites_per_line() {
    let desc = b"21 01 01 00 00 00.0000000  0 14G07G08G10G13G15G16G18G20G21G23G26G27G29G30";
    assert_eq!(epoch_count(desc, false), Some(14));
    let out = String::from_utf8(format_epoch(desc, false, None)).unwrap();
    assert_eq!(
        out,
        " 21 01 01 00 00 00.0000000  0 14G07G08G10G13G15G16G18G20G21G23G26G27\n                                G29G30\n"
    );
    assert_eq!(out.lines().count(), 2);
    let with_clock = String::from_utf8(format_epoch(desc, false, Some(-1459))).unwrap();
    assert_eq!(
        with_clock,
        " 21 01 01 00 00 00.0000000  0 14G07G08G10G13G15G16G18G20G21G23G26G27-0.000001459\n                                G29G30\n"
    );
    let mut d = Decoder::new(legacy_header(1), 8).unwrap();
    let mut line = b"&".to_vec();
    line.extend_from_slice(desc);
    assert_eq!(d.decode_line(&line), Ok(Vec::new()));
    assert_eq!(String::from_utf8(d.decode_line(b"").unwrap()).unwrap(), out);
    assert_eq!(d.phase, Phase::Observation);
    assert_eq!(d.finish(), Err(CodecError::TruncatedStream));
}

#[test]
fn epoch_fields() {
    let v3 = b" 2020 06 25 00 00 00.0000000  0 43      C05C07";
    assert_eq!(epoch_flag(v3, true), Some(0));
    assert_eq!(epoch_count(v3, true), Some(43));
    let v1 = b"21 01 01 00 00 00.0000000  4  2";
    assert_eq!(epoch_flag(v1, false), Some(4));
    assert_eq!(epoch_count(v1, false), Some(2));
    assert_eq!(epoch_count(b"21 01 01 00 00 00.0000000  4  x", false), None);
    assert_eq!(epoch_count(b"21 01", false), None);
}

#[test]
fn header_lines() {
    let vers = b"3.0                 COMPACT RINEX FORMAT                    CRINEX VERS   / TYPE";
    let prog = b"RNX2CRX ver.4.0.7                       04-Mar-22 00:04     CRINEX PROG / DATE";
    let kind = b"     3.04           OBSERVATION DATA    M                   RINEX VERSION / TYPE";
    let end = b"                                                            END OF HEADER";
    assert!(!keep_header_line(vers));
    assert!(!keep_header_line(prog));
    assert!(keep_header_line(kind));
    assert!(keep_header_line(end));
    assert!(is_end_of_header(end));
    assert!(!is_end_of_header(kind));
    assert!(codec_line(vers));
    assert!(!codec_line(prog));
    assert!(codec_line(kind));
    assert!(codec_line(end));
    assert!(!codec_line(b"short"));
}

#[test]
fn comment_lines_pass_through() {
    let mut d = Decoder::new(modern_header(), 8).unwrap();
    let c = format!("{:<60}COMMENT", "  anything at all");
    assert_eq!(text(d.decode_line(c.as_bytes())), format!("{}\n", c));
    assert_eq!(d.phase, Phase::Epoch);
    assert!(d.epoch.is_none());
}

fn labelled_lines(lines: &[(&str, &str)]) -> Vec<Vec<u8>> {
    lines
        .iter()
        .map(|(content, label)| format!("{:<60}{}", content, label).into_bytes())
        .collect()
}

#[test]
fn session_from_header_block() {
    let compact = labelled_lines(&[
        ("3.0                 COMPACT RINEX FORMAT", "CRINEX VERS   / TYPE"),
        ("RNX2CRX ver.4.0.7                       04-Mar-22 00:04", "CRINEX PROG / DATE"),
        ("     3.04           OBSERVATION DATA    M", "RINEX VERSION / TYPE"),
        ("Z", "ION ALPHA"),
        ("  anything", "COMMENT"),
        ("G    3 C1C L1C S1C", "SYS / # / OBS TYPES"),
        ("R    2 C1C L1C", "SYS / # / OBS TYPES"),
        ("", "END OF HEADER"),
    ]);
    let mut d = open_session(&compact, 8).unwrap();
    assert!(d.modern_marker);
    assert!(d.v3);
    let mut codes: Vec<(u8, usize)> = d.codes.iter().map(|c| (c.system, c.count)).collect();
    codes.sort();
    assert_eq!(codes, vec![(b'G', 3), (b'R', 2)]);
    d.decode_line(b"> 2022 03 04  0  0  0.0000000  0  1      R07").unwrap();
    d.decode_line(b"").unwrap();
    assert_eq!(
        d.decode_line(b"3&1 3&2").unwrap(),
        b"R07         0.001           0.002  \n".to_vec()
    );

    let plain = labelled_lines(&[
        ("     3.04           OBSERVATION DATA    M", "RINEX VERSION / TYPE"),
        ("G    3 C1C L1C S1C", "SYS / # / OBS TYPES"),
        ("", "END OF HEADER"),
    ]);
    assert_eq!(open_session(&plain, 8).err(), Some(CodecError::NotCompactRinex));

    let navigation = labelled_lines(&[
        ("3.0                 COMPACT RINEX FORMAT", "CRINEX VERS   / TYPE"),
        ("     3.04           NAVIGATION DATA     M", "RINEX VERSION / TYPE"),
        ("", "END OF HEADER"),
    ]);
    assert_eq!(open_session(&navigation, 8).err(), Some(CodecError::UnsupportedRecordType));

    let broken = labelled_lines(&[
        ("x.y                 COMPACT RINEX FORMAT", "CRINEX VERS   / TYPE"),
        ("", "END OF HEADER"),
    ]);
    assert_eq!(open_session(&broken, 8).err(), Some(CodecError::MalformedHeader));
}

#[test]
fn header_refusals() {
    let mut h = modern_header();
    h.observation = false;
    assert_eq!(Decoder::new(h, 8).err(), Some(CodecError::UnsupportedRecordType));
    let mut h = modern_header();
    h.crinex_version = None;
    assert_eq!(Decoder::new(h, 8).err(), Some(CodecError::NotCompactRinex));
    let mut h = modern_header();
    h.crinex_version = None;
    assert_eq!(decode_records(h, 8, &Vec::new()), Err(CodecError::NotCompactRinex));
}

#[test]
fn epoch_line_errors() {
    let mut d = Decoder::new(modern_header(), 8).unwrap();
    assert_eq!(d.decode_line(b"                   3"), Err(CodecError::UninitializedKernel));
    let mut d = Decoder::new(modern_header(), 8).unwrap();
    assert_eq!(
        d.decode_line(b"&21 01 01 00 00 00.0000000  0  2G07G08"),
        Err(CodecError::EpochMarkerMismatch)
    );
    let mut d = Decoder::new(legacy_header(1), 8).unwrap();
    assert_eq!(
        d.decode_line(b"> 2022 03 04  0  0  0.0000000  0  1      G05"),
        Err(CodecError::EpochMarkerMismatch)
    );
    let mut d = Decoder::new(modern_header(), 8).unwrap();
    assert_eq!(d.decode_line(b"> 2022 03 04"), Err(CodecError::MalformedEpochHeader));
    let mut d = Decoder::new(modern_header(), 8).unwrap();
    assert_eq!(
        d.decode_line(b"> 2022 03 04  0  0  0.0000000  x  1      G05"),
        Err(CodecError::MalformedEpochHeader)
    );
    let mut d = Decoder::new(modern_header(), 8).unwrap();
    assert_eq!(
        d.decode_line(b"> 2022 03 04  0  0  0.0000000  0  3      G05"),
        Err(CodecError::MalformedEpochHeader)
    );
}

#[test]
fn clock_and_observation_errors() {
    let mut d = Decoder::new(modern_header(), 8).unwrap();
    d.decode_line(b"> 2022 03 04  0  0  0.0000000  0  1      E01").unwrap();
    assert_eq!(d.decode_line(b"abc"), Err(CodecError::MalformedRecord));

    let mut d = Decoder::new(modern_header(), 8).unwrap();
    d.decode_line(b"> 2022 03 04  0  0  0.0000000  0  1      E01").unwrap();
    assert_eq!(d.decode_line(b"9&5"), Err(CodecError::InvalidOrder));

    let mut d = Decoder::new(modern_header(), 8).unwrap();
    d.decode_line(b"> 2022 03 04  0  0  0.0000000  0  1      E01").unwrap();
    d.decode_line(b"").unwrap();
    assert_eq!(d.decode_line(b"3&1"), Err(CodecError::UnknownConstellation));

    let mut d = Decoder::new(modern_header(), 8).unwrap();
    d.decode_line(b"> 2022 03 04  0  0  0.0000000  0  0").unwrap();
    d.decode_line(b"1&9223372036854775807").unwrap();
    d.decode_line(b"                   3").unwrap();
    assert_eq!(d.decode_line(b"1"), Err(CodecError::NumericOverflow));
}

#[test]
fn whole_stream() {
    let lines: Vec<Vec<u8>> = vec![
        b"> 2022 03 04  0  0  0.0000000  0  1      G01".to_vec(),
        b"3&0".to_vec(),
        b"3&20832393682 3&109474991854 3&49500 &&&8".to_vec(),
        b"                   3".to_vec(),
        b"".to_vec(),
        b"12950080 68053048 250".to_vec(),
    ];
    let out = decode_records(modern_header(), 8, &lines).unwrap();
    assert_eq!(
        String::from_utf8(out).unwrap(),
        "> 2022 03 04  0  0  0.0000000  0  1       0.000000000000\n\
         G01  20832393.682   109474991.854 8        49.500  \n\
         > 2022 03 04  0  0 30.0000000  0  1\n\
         G01  20845343.762   109543044.902 8        49.750  \n"
    );
    let cut: Vec<Vec<u8>> = lines[..2].to_vec();
    assert_eq!(decode_records(modern_header(), 8, &cut), Err(CodecError::TruncatedStream));
    assert_eq!(decode_records(modern_header(), 8, &Vec::new()), Ok(Vec::new()));
}

#[test]
fn whole_file_with_header() {
    let mut lines = labelled_lines(&[
        ("3.0                 COMPACT RINEX FORMAT", "CRINEX VERS   / TYPE"),
        ("RNX2CRX ver.4.0.7                       04-Mar-22 00:04", "CRINEX PROG / DATE"),
        ("     3.04           OBSERVATION DATA    M", "RINEX VERSION / TYPE"),
        ("  kept as it is", "COMMENT"),
        ("G    3 C1C L1C S1C", "SYS / # / OBS TYPES"),
        ("", "END OF HEADER"),
    ]);
    lines.push(b"> 2022 03 04  0  0  0.0000000  0  1      G01".to_vec());
    lines.push(b"3&0".to_vec());
    lines.push(b"3&20832393682 3&109474991854 3&49500 &&&8".to_vec());
    let out = String::from_utf8(decode_file(&lines, 8).unwrap()).unwrap();
    let expected = format!(
        "{:<60}RINEX VERSION / TYPE\n{:<60}COMMENT\n{:<60}SYS / # / OBS TYPES\n{:<60}END OF HEADER\n\
         > 2022 03 04  0  0  0.0000000  0  1       0.000000000000\n\
         G01  20832393.682   109474991.854 8        49.500  \n",
        "     3.04           OBSERVATION DATA    M",
        "  kept as it is",
        "G    3 C1C L1C S1C",
        ""
    );
    assert_eq!(out, expected);

    let cut: Vec<Vec<u8>> = lines[..7].to_vec();
    assert_eq!(decode_file(&cut, 8), Err(CodecError::TruncatedStream));
    let headless: Vec<Vec<u8>> = lines[..5].to_vec();
    assert_eq!(decode_file(&headless, 8), Err(CodecError::MalformedHeader));
    let mut plain: Vec<Vec<u8>> = lines[2..].to_vec();
    plain.truncate(4);
    assert_eq!(decode_file(&plain, 8), Err(CodecError::NotCompactRinex));
}

#[test]
fn codec_lines_are_filtered() {
    let lines = labelled_lines(&[
        ("3.0                 COMPACT RINEX FORMAT", "CRINEX VERS   / TYPE"),
        ("Z", "ION ALPHA"),
        ("x", "COMMENT"),
        ("", "END OF HEADER"),
    ]);
    let kept = codec_header_lines(&lines);
    assert_eq!(kept, vec![lines[0].clone(), lines[3].clone()]);
}

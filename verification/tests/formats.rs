use jitsi_jingle_sdp::decode::{parse_candidate, parse_u16, parse_u32, parse_u8};
use jitsi_jingle_sdp::encode::{
    format_candidate, format_codec, format_parameters, format_ssrc_group, msid_for_sources,
    populate_media_description_from_sources,
};
use jitsi_jingle_sdp::description::{Attribute, MediaDescription, MediaName, RangedPort};
use jitsi_jingle_sdp::jingle::{
    Algo, Candidate, CandidateType, GroupSemantics, Parameter, PayloadType, RtcpFb, Semantics,
    Setup, Source, SourceGroup, SourceParameter,
};
use jitsi_jingle_sdp::names::{
    candidate_type_name, group_semantics_name, hash_to_name, parse_candidate_type,
    parse_group_semantics, parse_hash_name, parse_semantics, parse_setup, semantics_name,
    setup_name,
};
use jitsi_jingle_sdp::text::{
    chars_eq, decimal_string, find_char, from_chars, head_tail_chars, hex_pair_string,
    join_strings, parse_colon_hex, parse_unsigned, slice_chars, split_chars, split_once_chars,
    starts_with, str_eq, to_chars,
};

fn text(s: &str) -> String {
    s.to_string()
}

fn chars(s: &str) -> Vec<char> {
    s.chars().collect()
}

fn candidate(type_: CandidateType, rel_addr: Option<&str>, rel_port: Option<u16>) -> Candidate {
    Candidate {
        foundation: text("3"),
        component: 1,
        protocol: text("udp"),
        priority: 1677724415,
        ip: text("13.229.216.23"),
        port: 10000,
        type_,
        rel_addr: rel_addr.map(text),
        rel_port,
        generation: 2,
    }
}

#[test]
fn candidate_lines() {
    assert_eq!(
        format_candidate(&candidate(CandidateType::Host, None, None)),
        "3 1 udp 1677724415 13.229.216.23 10000 typ host generation 2"
    );
    // a host candidate never carries a related address
    assert_eq!(
        format_candidate(&candidate(CandidateType::Host, Some("10.228.1.45"), Some(9))),
        "3 1 udp 1677724415 13.229.216.23 10000 typ host generation 2"
    );
    assert_eq!(
        format_candidate(&candidate(CandidateType::Srflx, Some("10.228.1.45"), Some(10000))),
        "3 1 udp 1677724415 13.229.216.23 10000 typ srflx raddr 10.228.1.45 rport 10000 generation 2"
    );
    assert_eq!(
        format_candidate(&candidate(CandidateType::Relay, Some("10.228.1.45"), Some(10000))),
        "3 1 udp 1677724415 13.229.216.23 10000 typ relay raddr 10.228.1.45 rport 10000 generation 2"
    );
    assert_eq!(
        format_candidate(&candidate(CandidateType::Prflx, Some("::1"), None)),
        "3 1 udp 1677724415 13.229.216.23 10000 typ prflx raddr ::1 generation 2"
    );
    assert_eq!(
        format_candidate(&candidate(CandidateType::Relay, None, Some(5))),
        "3 1 udp 1677724415 13.229.216.23 10000 typ relay rport 5 generation 2"
    );
    assert_eq!(
        format_candidate(&candidate(CandidateType::Relay, None, None)),
        "3 1 udp 1677724415 13.229.216.23 10000 typ relay generation 2"
    );
    for kind in
        [CandidateType::Host, CandidateType::Srflx, CandidateType::Prflx, CandidateType::Relay]
    {
        let given = candidate(kind, Some("10.0.0.1"), Some(7));
        let line = format_candidate(&given);
        assert!(line.ends_with(" generation 2"));
        let read = parse_candidate(&chars(&line)).unwrap();
        if kind == CandidateType::Host {
            assert_eq!(read, candidate(kind, None, None));
        } else {
            assert_eq!(read, given);
        }
    }
}

#[test]
fn codec_lines() {
    let value = |a: &Attribute| (a.key.clone(), a.value.clone().unwrap());
    let codec = PayloadType {
        id: 111,
        name: Some(text("opus")),
        clockrate: Some(48000),
        channels: 2,
        ptime: None,
        maxptime: None,
        parameters: vec![
            Parameter { name: text("minptime"), value: text("10") },
            Parameter { name: text(""), value: text("bare") },
            Parameter { name: text("useinbandfec"), value: text("1") },
        ],
        rtcp_fbs: vec![
            RtcpFb { type_: text("transport-cc"), subtype: None },
            RtcpFb { type_: text("nack"), subtype: Some(text("pli")) },
        ],
    };
    let lines: Vec<(String, String)> = format_codec(&codec).unwrap().iter().map(value).collect();
    assert_eq!(
        lines,
        vec![
            (text("rtpmap"), text("111 opus/48000/2")),
            (text("fmtp"), text("111 minptime=10;bare;useinbandfec=1")),
            (text("rtcp-fb"), text("111 transport-cc")),
            (text("rtcp-fb"), text("111 nack pli")),
        ]
    );
    assert_eq!(format_parameters(&codec.parameters), "minptime=10;bare;useinbandfec=1");
    assert_eq!(format_parameters(&vec![]), "");
    for (channels, expected) in [(0u8, "0 x/8000"), (1, "0 x/8000"), (2, "0 x/8000/2"), (255, "0 x/8000/255")]
    {
        let plain = PayloadType {
            id: 0,
            name: Some(text("x")),
            clockrate: Some(8000),
            channels,
            ptime: None,
            maxptime: None,
            parameters: vec![],
            rtcp_fbs: vec![],
        };
        let lines: Vec<(String, String)> =
            format_codec(&plain).unwrap().iter().map(value).collect();
        assert_eq!(lines, vec![(text("rtpmap"), text(expected))]);
    }
}

#[test]
fn source_lines() {
    let parameter = |name: &str, value: Option<&str>| SourceParameter {
        name: text(name),
        value: value.map(text),
    };
    let first = Source {
        id: 4173594801,
        parameters: vec![parameter("cname", Some("a:b")), parameter("msid", None), parameter("label", None)],
        owner: Some(text("jvb")),
    };
    let second = Source {
        id: 7,
        parameters: vec![parameter("msid", Some("stream track"))],
        owner: None,
    };
    let group = SourceGroup { semantics: Semantics::Sim, sources: vec![4173594801, 7, 9] };
    let bare = MediaDescription {
        media_name: MediaName {
            media: text("video"),
            port: RangedPort { value: 9, range: None },
            protos: vec![],
            formats: vec![],
        },
        media_title: None,
        connection_information: None,
        bandwidth: vec![],
        encryption_key: None,
        attributes: vec![Attribute { key: text("mid"), value: Some(text("4")) }],
    };
    let sources = vec![&first, &second];
    assert_eq!(msid_for_sources(&sources), Some(&text("stream track")));
    assert_eq!(msid_for_sources(&vec![&first]), None);
    assert_eq!(msid_for_sources(&vec![]), None);
    let block = populate_media_description_from_sources(bare.clone(), &sources, Some(&group));
    let lines: Vec<(&str, Option<&str>)> =
        block.attributes.iter().map(|a| (a.key.as_str(), a.value.as_deref())).collect();
    assert_eq!(
        lines,
        vec![
            ("mid", Some("4")),
            ("msid", Some("stream track")),
            ("sendrecv", None),
            ("ssrc", Some("4173594801 cname:a:b")),
            ("ssrc", Some("4173594801 msid")),
            ("ssrc", Some("4173594801 label")),
            ("ssrc", Some("7 msid:stream track")),
            ("ssrc-group", Some("SIM 4173594801 7 9")),
        ]
    );
    assert_eq!(block.media_name, bare.media_name);
    let block = populate_media_description_from_sources(bare.clone(), &vec![&second, &first], None);
    assert_eq!(block.attributes[2], Attribute { key: text("sendonly"), value: None });
    let block = populate_media_description_from_sources(bare, &vec![], None);
    assert_eq!(block.attributes.len(), 2);
    assert_eq!(block.attributes[1], Attribute { key: text("sendonly"), value: None });
    assert_eq!(format_ssrc_group(&SourceGroup { semantics: Semantics::Fid, sources: vec![] }), "FID ");
    assert_eq!(format_ssrc_group(&SourceGroup { semantics: Semantics::Fid, sources: vec![5] }), "FID 5");
}

#[test]
fn names_of_the_vocabularies() {
    for setup in [Setup::Active, Setup::Passive, Setup::Actpass] {
        assert_eq!(parse_setup(setup_name(setup)), Some(setup));
    }
    assert_eq!(setup_name(Setup::Actpass), "actpass");
    assert_eq!(parse_setup("holdconn"), None);
    for kind in
        [CandidateType::Host, CandidateType::Prflx, CandidateType::Relay, CandidateType::Srflx]
    {
        assert_eq!(parse_candidate_type(candidate_type_name(kind)), Some(kind));
    }
    assert_eq!(candidate_type_name(CandidateType::Srflx), "srflx");
    assert_eq!(parse_candidate_type("HOST"), None);
    for semantics in [
        Semantics::Ls,
        Semantics::Fid,
        Semantics::Srf,
        Semantics::Anat,
        Semantics::Fec,
        Semantics::Ddp,
        Semantics::Sim,
    ] {
        assert_eq!(parse_semantics(semantics_name(semantics)), Some(semantics));
    }
    assert_eq!(semantics_name(Semantics::Sim), "SIM");
    assert_eq!(parse_semantics("BUNDLE"), None);
    for semantics in [GroupSemantics::Ls, GroupSemantics::Bundle] {
        assert_eq!(parse_group_semantics(group_semantics_name(semantics)), Some(semantics));
    }
    assert_eq!(parse_group_semantics("FID"), None);
}

#[test]
fn names_of_hash_functions() {
    assert_eq!(hash_to_name(&Algo::Sha1), Some(text("sha-1")));
    assert_eq!(hash_to_name(&Algo::Sha256), Some(text("sha-256")));
    assert_eq!(hash_to_name(&Algo::Sha512), Some(text("sha-512")));
    assert_eq!(parse_hash_name("sha-1"), Some(Algo::Sha1));
    assert_eq!(parse_hash_name("sha-256"), Some(Algo::Sha256));
    assert_eq!(parse_hash_name("sha-512"), Some(Algo::Sha512));
    for name in ["sha-224", "sha-384", "shake128", "shake256", "md5", "md2"] {
        assert_eq!(parse_hash_name(name), Some(Algo::Unknown(text(name))));
        assert_eq!(hash_to_name(&Algo::Unknown(text(name))), Some(text(name)));
    }
    for name in ["sha3-256", "blake2b-512", "", "SHA-1", "sha-1 "] {
        assert_eq!(parse_hash_name(name), None);
        assert_eq!(hash_to_name(&Algo::Unknown(text(name))), None);
    }
    assert_eq!(hash_to_name(&Algo::Unknown(text("sha-256"))), None);
    assert_eq!(hash_to_name(&Algo::Sha3_256), None);
    assert_eq!(hash_to_name(&Algo::Blake2b512), None);
}

#[test]
fn decimal_numerals() {
    assert_eq!(decimal_string(0), "0");
    assert_eq!(decimal_string(9), "9");
    assert_eq!(decimal_string(10), "10");
    assert_eq!(decimal_string(4294967295), "4294967295");
    assert_eq!(decimal_string(u64::MAX), "18446744073709551615");
    for n in [0u64, 1, 7, 10, 99, 100, 255, 256, 65535, 65536, 1234567890] {
        assert_eq!(decimal_string(n), n.to_string());
        assert_eq!(parse_unsigned(&chars(&n.to_string()), 4294967295), Some(n));
    }
}

#[test]
fn unsigned_numbers_are_read_as_the_standard_library_reads_them() {
    let cases = [
        "0", "7", "007", "+7", "+007", "255", "256", "+255", "+256", "65535", "65536",
        "4294967295", "4294967296", "99999999999999999999999", "", "+", "-", "-1", "+-1", "++1",
        " 1", "1 ", "1_0", "0x10", "1.0", "one", "١",
    ];
    for case in cases {
        assert_eq!(parse_u8(&chars(case)), case.parse::<u8>().ok(), "{:?}", case);
        assert_eq!(parse_u16(&chars(case)), case.parse::<u16>().ok(), "{:?}", case);
        assert_eq!(parse_u32(&chars(case)), case.parse::<u32>().ok(), "{:?}", case);
    }
    assert_eq!(parse_unsigned(&chars("12"), 11), None);
    assert_eq!(parse_unsigned(&chars("12"), 12), Some(12));
}

#[test]
fn hexadecimal_digit_pairs() {
    assert_eq!(hex_pair_string(0), "00");
    assert_eq!(hex_pair_string(0x0a), "0A");
    assert_eq!(hex_pair_string(0x9f), "9F");
    assert_eq!(hex_pair_string(0xff), "FF");
    for b in 0..=255u8 {
        assert_eq!(hex_pair_string(b), format!("{:02X}", b));
        assert_eq!(parse_colon_hex(&chars(&format!("{:02X}", b))), Some(vec![b]));
        assert_eq!(parse_colon_hex(&chars(&format!("{:02x}", b))), Some(vec![b]));
    }
    assert_eq!(parse_colon_hex(&chars("")), Some(vec![]));
    assert_eq!(parse_colon_hex(&chars("9F:21:d6")), Some(vec![0x9f, 0x21, 0xd6]));
    for bad in ["9", "9F:", ":9F", "9F:2", "9F::21", "9F 21", "9G", "+F", "9F:21:"] {
        assert_eq!(parse_colon_hex(&chars(bad)), None, "{:?}", bad);
    }
}

#[test]
fn cutting_and_joining() {
    let pieces = |s: &str, c: char| -> Vec<String> {
        split_chars(&chars(s), c).iter().map(from_chars).collect()
    };
    for case in ["", "a", "a b", " a", "a ", "a  b", "  ", "FID 1 2", "é ü"] {
        let expected: Vec<String> = case.split(' ').map(text).collect();
        assert_eq!(pieces(case, ' '), expected, "{:?}", case);
        let once = split_once_chars(&chars(case), ' ').map(|(a, b)| (from_chars(&a), from_chars(&b)));
        assert_eq!(once, case.split_once(' ').map(|(a, b)| (text(a), text(b))), "{:?}", case);
        let (head, tail) = head_tail_chars(&chars(case), ' ');
        let mut parts = case.splitn(2, ' ');
        assert_eq!(from_chars(&head), parts.next().unwrap());
        assert_eq!(tail.map(|t| from_chars(&t)), parts.next().map(text));
        assert_eq!(join_strings(&expected, " "), case);
    }
    assert_eq!(join_strings(&vec![], ", "), "");
    assert_eq!(join_strings(&vec![text("a")], ", "), "a");
    assert_eq!(join_strings(&vec![text("a"), text(""), text("b")], ", "), "a, , b");
    assert_eq!(find_char(&chars("a:b:c"), 0, ':'), 1);
    assert_eq!(find_char(&chars("a:b:c"), 2, ':'), 3);
    assert_eq!(find_char(&chars("a:b:c"), 4, ':'), 5);
    assert_eq!(slice_chars(&chars("hello"), 1, 3), chars("el"));
    assert_eq!(to_chars("é ü"), chars("é ü"));
    assert_eq!(from_chars(&chars("é ü")), "é ü");
    assert!(str_eq("msid", "msid"));
    assert!(!str_eq("msid", "msid "));
    assert!(chars_eq(&chars("ab"), &chars("ab")));
    assert!(!chars_eq(&chars("ab"), &chars("ac")));
    assert!(!chars_eq(&chars("ab"), &chars("abc")));
    assert!(starts_with(&chars("mixedmslabel x"), &chars("mixedmslabel ")));
    assert!(!starts_with(&chars("mixedmslabel"), &chars("mixedmslabel ")));
    assert!(starts_with(&chars("a"), &chars("")));
}

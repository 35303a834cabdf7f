use jitsi_jingle_sdp::description::{
    Attribute, MediaDescription, MediaName, Origin, RangedPort, SessionDescription,
};
use jitsi_jingle_sdp::error::Error;
use jitsi_jingle_sdp::jingle::{
    Action, Algo, Content, Creator, Fingerprint, Jingle, PayloadType, RtpDescription, RtpHdrext,
    Senders, Setup, Source, Transport,
};

fn text(s: &str) -> String {
    s.to_string()
}

fn attr(key: &str, value: Option<&str>) -> Attribute {
    Attribute { key: text(key), value: value.map(text) }
}

fn origin() -> Origin {
    Origin {
        username: text("-"),
        session_id: 7,
        session_version: 2,
        network_type: text("IN"),
        address_type: text("IP4"),
        unicast_address: text("0.0.0.0"),
    }
}

fn session(attributes: Vec<Attribute>, blocks: Vec<Vec<Attribute>>) -> SessionDescription {
    SessionDescription {
        version: 0,
        origin: origin(),
        session_name: text("-"),
        session_information: None,
        uri: None,
        email_address: None,
        phone_number: None,
        connection_information: None,
        bandwidth: vec![],
        time_descriptions: vec![],
        time_zones: vec![],
        encryption_key: None,
        attributes,
        media_descriptions: blocks
            .into_iter()
            .map(|attributes| MediaDescription {
                media_name: MediaName {
                    media: text("audio"),
                    port: RangedPort { value: 9, range: None },
                    protos: vec![],
                    formats: vec![],
                },
                media_title: None,
                connection_information: None,
                bandwidth: vec![],
                encryption_key: None,
                attributes,
            })
            .collect(),
    }
}

fn decode(blocks: Vec<Vec<Attribute>>) -> Result<Jingle, Error> {
    session(vec![], blocks).try_to_jingle(Action::SessionAccept, "sid", "a@b/c", "d@e/f")
}

fn rejected(attributes: Vec<Attribute>) -> bool {
    decode(vec![attributes]) == Err(Error::InvalidSignalingDocument)
}

fn one(key: &str, value: &str) -> Vec<Attribute> {
    vec![attr(key, Some(value))]
}

#[test]
fn decode_rejects_a_malformed_address() {
    let sdp = session(vec![], vec![]);
    assert!(sdp.try_to_jingle(Action::SessionAccept, "sid", "a@b/c", "d@e/f").is_ok());
    assert!(sdp.try_to_jingle(Action::SessionAccept, "sid", "b", "e").is_ok());
    for bad in ["", "@b", "a@", "a@b/", "/c", "a@/c"] {
        assert_eq!(
            sdp.try_to_jingle(Action::SessionAccept, "sid", bad, "d@e/f"),
            Err(Error::InvalidIdentity)
        );
        assert_eq!(
            sdp.try_to_jingle(Action::SessionAccept, "sid", "a@b/c", bad),
            Err(Error::InvalidIdentity)
        );
    }
    assert_eq!(Error::InvalidIdentity.message(), "invalid JID");
}

#[test]
fn a_malformed_address_counts_before_a_defective_document() {
    let sdp = session(vec![], vec![one("rtpmap", "x opus/48000")]);
    assert_eq!(
        sdp.try_to_jingle(Action::SessionAccept, "sid", "@b", "d@e/f"),
        Err(Error::InvalidIdentity)
    );
    assert_eq!(
        sdp.to_jingle_between(Action::SessionAccept, "sid", None, Some(text("d@e/f"))),
        Err(Error::InvalidIdentity)
    );
    assert_eq!(
        sdp.to_jingle_between(Action::SessionAccept, "sid", Some(text("a@b")), Some(text("d@e"))),
        Err(Error::InvalidSignalingDocument)
    );
}

#[test]
fn decode_rejects_unreadable_codec_lines() {
    assert!(!rejected(one("rtpmap", "111 opus/48000")));
    assert!(!rejected(one("rtpmap", "+111 opus/048000/2/ignored")));
    assert!(rejected(one("rtpmap", "x opus/48000")));
    assert!(rejected(one("rtpmap", "256 opus/48000")));
    assert!(rejected(one("rtpmap", "111")));
    assert!(rejected(one("rtpmap", "111 opus")));
    assert!(rejected(one("rtpmap", "111 opus/fast")));
    assert!(rejected(one("rtpmap", "111 opus/4294967296")));
    assert!(rejected(one("rtpmap", "111 opus/48000/two")));
    assert!(rejected(one("rtpmap", "")));
    let with = |key: &str, value: &str| {
        rejected(vec![attr("rtpmap", Some("111 opus/48000")), attr(key, Some(value))])
    };
    assert!(!with("fmtp", "111 a=b;c"));
    assert!(with("fmtp", "x a=b"));
    assert!(with("fmtp", "111"));
    assert!(with("fmtp", "112 a=b"));
    assert!(!with("rtcp-fb", "111 nack pli"));
    assert!(with("rtcp-fb", "* nack"));
    assert!(with("rtcp-fb", "111"));
    assert!(with("rtcp-fb", "112 nack"));
    assert!(!with("extmap", "1 urn:a"));
    assert!(with("extmap", "1"));
    assert!(with("extmap", "1/sendonly urn:a"));
    assert!(with("extmap", "65536 urn:a"));
    assert_eq!(Error::InvalidSignalingDocument.message(), "invalid Jingle IQ");
}

#[test]
fn an_attribute_without_a_value_is_passed_over() {
    let jingle = decode(vec![vec![
        attr("rtpmap", None),
        attr("fmtp", None),
        attr("ssrc", None),
        attr("ssrc-group", None),
        attr("candidate", None),
        attr("fingerprint", None),
    ]])
    .unwrap();
    let description = jingle.contents[0].description.as_ref().unwrap();
    assert!(description.payload_types.is_empty());
    assert!(description.ssrcs.is_empty());
    assert_eq!(description.ssrc, None);
    assert_eq!(jingle.contents[0].transport.as_ref().unwrap().fingerprint, None);
}

#[test]
fn only_the_first_block_of_a_type_is_read_for_codecs() {
    let jingle = decode(vec![
        one("rtpmap", "111 opus/48000"),
        vec![attr("rtpmap", Some("x")), attr("fmtp", Some("y")), attr("candidate", Some("z"))],
    ])
    .unwrap();
    assert_eq!(jingle.contents.len(), 1);
    assert_eq!(jingle.contents[0].description.as_ref().unwrap().payload_types.len(), 1);
}

#[test]
fn decode_rejects_unreadable_fingerprints() {
    let with = |fingerprint: &str, setup: Option<&str>| {
        let mut attributes = vec![attr("fingerprint", Some(fingerprint))];
        if let Some(setup) = setup {
            attributes.push(attr("setup", Some(setup)));
        }
        decode(vec![attributes])
    };
    let read = |fingerprint: &str, setup: Option<&str>| {
        with(fingerprint, setup).unwrap().contents[0].transport.clone().unwrap().fingerprint
    };
    assert_eq!(
        read("sha-1 01:ab:CD", Some("passive")),
        Some(Fingerprint {
            hash: Algo::Sha1,
            setup: Some(Setup::Passive),
            value: vec![0x01, 0xab, 0xcd]
        })
    );
    assert_eq!(
        read("sha-512 FF", Some("actpass")),
        Some(Fingerprint { hash: Algo::Sha512, setup: Some(Setup::Actpass), value: vec![0xff] })
    );
    for name in ["sha-224", "sha-384", "shake128", "shake256", "md5", "md2"] {
        assert_eq!(
            read(&format!("{} 00", name), Some("active")),
            Some(Fingerprint {
                hash: Algo::Unknown(text(name)),
                setup: Some(Setup::Active),
                value: vec![0]
            })
        );
    }
    assert_eq!(
        read("sha-256 ", Some("active")),
        Some(Fingerprint { hash: Algo::Sha256, setup: Some(Setup::Active), value: vec![] })
    );
    // no space: no fingerprint, and no error
    assert_eq!(read("sha-256", None), None);
    for name in ["sha3-256", "sha3-512", "blake2b-256", "blake2b-512", "SHA-256", "", "sha1"] {
        assert_eq!(
            with(&format!("{} 00", name), Some("active")).err(),
            Some(Error::InvalidSignalingDocument)
        );
    }
    for digits in ["0", "000", "00:", ":00", "00::00", "0g", "00 11", "+f", "00:1"] {
        assert_eq!(
            with(&format!("sha-256 {}", digits), Some("active")).err(),
            Some(Error::InvalidSignalingDocument)
        );
    }
    assert_eq!(with("sha-256 00", None).err(), Some(Error::InvalidSignalingDocument));
    assert_eq!(with("sha-256 00", Some("holdconn")).err(), Some(Error::InvalidSignalingDocument));
}

#[test]
fn decode_rejects_unreadable_sources_and_groups() {
    assert!(!rejected(one("ssrc", "1")));
    assert!(!rejected(one("ssrc", "4294967295 cname:a:b")));
    assert!(rejected(one("ssrc", "4294967296 cname:a")));
    assert!(rejected(one("ssrc", "one cname:a")));
    assert!(rejected(one("ssrc", "")));
    assert!(!rejected(one("ssrc-group", "FID 1 2")));
    assert!(!rejected(one("ssrc-group", "SIM")));
    assert!(rejected(one("ssrc-group", "fid 1 2")));
    assert!(rejected(one("ssrc-group", "FID 1 x")));
    assert!(rejected(one("ssrc-group", "FID 1  2")));
    assert!(rejected(one("ssrc-group", "FID ")));
    let jingle = decode(vec![vec![
        attr("ssrc", Some("1 cname:a:b")),
        attr("ssrc", Some("2")),
        attr("ssrc", Some("1 label")),
        attr("ssrc-group", Some("SIM 1 2")),
    ]])
    .unwrap();
    let description = jingle.contents[0].description.as_ref().unwrap();
    assert_eq!(description.ssrc, Some(text("1")));
    assert_eq!(description.ssrcs.len(), 2);
    assert_eq!(description.ssrcs[0].id, 1);
    assert_eq!(description.ssrcs[0].parameters.len(), 2);
    assert_eq!(description.ssrcs[0].parameters[0].name, "cname");
    assert_eq!(description.ssrcs[0].parameters[0].value, Some(text("a:b")));
    assert_eq!(description.ssrcs[0].parameters[1].name, "label");
    assert_eq!(description.ssrcs[0].parameters[1].value, None);
    assert!(description.ssrcs[1].parameters.is_empty());
    assert_eq!(description.ssrc_groups[0].sources, vec![1, 2]);
}

#[test]
fn the_msid_of_a_block_fills_in_for_sources_without_one() {
    let jingle = decode(vec![
        vec![
            attr("msid", Some("stream track")),
            attr("msid", Some("other")),
            attr("ssrc", Some("1 cname:a")),
            attr("ssrc", Some("2 msid:own own-track")),
        ],
        vec![attr("ssrc", Some("3 cname:c"))],
        vec![attr("msid", None), attr("ssrc", Some("4"))],
    ])
    .unwrap();
    let sources = &jingle.contents[0].description.as_ref().unwrap().ssrcs;
    assert_eq!(sources.len(), 4);
    assert_eq!(sources[0].parameters.len(), 2);
    assert_eq!(sources[0].parameters[1].name, "msid");
    assert_eq!(sources[0].parameters[1].value, Some(text("stream track")));
    assert_eq!(sources[1].parameters.len(), 1);
    assert_eq!(sources[1].parameters[0].value, Some(text("own own-track")));
    assert_eq!(sources[2].parameters.len(), 1);
    assert_eq!(sources[3].parameters.len(), 1);
    assert_eq!(sources[3].parameters[0].name, "msid");
    assert_eq!(sources[3].parameters[0].value, None);
}

#[test]
fn decode_rejects_an_unknown_group_semantics() {
    let grouped = |value: Option<&str>| {
        session(vec![attr("group", value)], vec![vec![]])
            .try_to_jingle(Action::SessionAccept, "sid", "a@b/c", "d@e/f")
    };
    assert!(grouped(Some("BUNDLE 0")).unwrap().group.is_some());
    assert!(grouped(Some("LS")).unwrap().group.is_some());
    assert_eq!(grouped(None).unwrap().group, None);
    assert_eq!(grouped(Some("FID 0")).err(), Some(Error::InvalidSignalingDocument));
    assert_eq!(grouped(Some("")).err(), Some(Error::InvalidSignalingDocument));
}

#[test]
fn decode_reads_candidates() {
    let read = |value: &str| decode(vec![one("candidate", value)]);
    let candidates = |value: &str| read(value).unwrap().contents[0].transport.clone().unwrap().candidates;
    let host = candidates("1 1 udp 2130706431 10.0.0.1 10000 typ host generation 3");
    assert_eq!(host.len(), 1);
    assert_eq!(host[0].foundation, "1");
    assert_eq!(host[0].component, 1);
    assert_eq!(host[0].protocol, "udp");
    assert_eq!(host[0].priority, 2130706431);
    assert_eq!(host[0].ip, "10.0.0.1");
    assert_eq!(host[0].port, 10000);
    assert_eq!(host[0].rel_addr, None);
    assert_eq!(host[0].rel_port, None);
    assert_eq!(host[0].generation, 3);
    let relay = candidates(
        "3 2 tcp 5 2001:db8::1 9 typ relay raddr 10.0.0.1 rport 7 tcptype active generation 1",
    );
    assert_eq!(relay[0].rel_addr, Some(text("10.0.0.1")));
    assert_eq!(relay[0].rel_port, Some(7));
    assert_eq!(relay[0].generation, 1);
    assert_eq!(candidates("1 1 udp 1 10.0.0.1 1 typ srflx")[0].generation, 0);
    for bad in [
        "1 1 udp 1 10.0.0.1 1 typ",
        "1 1 udp 1 10.0.0.1 1 type host",
        "1 x udp 1 10.0.0.1 1 typ host",
        "1 1 udp x 10.0.0.1 1 typ host",
        "1 1 udp 1 10.0.0.1 65536 typ host",
        "1 1 udp 1 10.0.0.1 1 typ local",
        "1 1 udp 1 10.0.0.1 1 typ host generation",
        "1 1 udp 1 10.0.0.1 1 typ host generation 256",
        "1 1 udp 1 10.0.0.1 1 typ host rport x",
        "",
    ] {
        assert_eq!(read(bad).err(), Some(Error::InvalidSignalingDocument));
    }
}

fn message(description: RtpDescription, transport: Option<Transport>) -> Jingle {
    Jingle {
        action: Action::SessionInitiate,
        initiator: None,
        responder: None,
        sid: text("sid"),
        contents: vec![Content {
            creator: Creator::Initiator,
            name: text("audio"),
            senders: Senders::Both,
            description: Some(description),
            transport,
        }],
        group: None,
    }
}

fn codec(name: Option<&str>, clockrate: Option<u32>) -> PayloadType {
    PayloadType {
        id: 111,
        name: name.map(text),
        clockrate,
        channels: 1,
        ptime: None,
        maxptime: None,
        parameters: vec![],
        rtcp_fbs: vec![],
    }
}

fn described(payload_types: Vec<PayloadType>, hdrexts: Vec<RtpHdrext>) -> RtpDescription {
    RtpDescription {
        media: text("audio"),
        ssrc: None,
        payload_types,
        rtcp_mux: false,
        ssrc_groups: vec![],
        ssrcs: vec![Source { id: 1, parameters: vec![], owner: None }],
        hdrexts,
    }
}

fn encode(jingle: &Jingle) -> Result<SessionDescription, Error> {
    SessionDescription::from_jingle_with_origin(jingle, origin())
}

#[test]
fn encode_rejects_an_incomplete_payload_type() {
    assert!(encode(&message(described(vec![codec(Some("opus"), Some(48000))], vec![]), None)).is_ok());
    assert_eq!(
        encode(&message(described(vec![codec(None, Some(48000))], vec![]), None)).err(),
        Some(Error::InvalidSignalingDocument)
    );
    assert_eq!(
        encode(&message(described(vec![codec(Some("opus"), None)], vec![]), None)).err(),
        Some(Error::InvalidSignalingDocument)
    );
    // also where the description has no source and makes no block
    let mut bare = described(vec![codec(None, None)], vec![]);
    bare.ssrcs.clear();
    assert_eq!(encode(&message(bare, None)).err(), Some(Error::InvalidSignalingDocument));
    assert_eq!(
        SessionDescription::try_from_jingle(&message(
            described(vec![codec(None, Some(48000))], vec![]),
            None
        ))
        .err(),
        Some(Error::InvalidSignalingDocument)
    );
}

#[test]
fn encode_rejects_an_unreadable_extension_uri() {
    let with = |uri: &str| {
        encode(&message(described(vec![], vec![RtpHdrext { id: 3, uri: text(uri) }]), None))
    };
    assert_eq!(with("not a uri").err(), Some(Error::InvalidSignalingDocument));
    assert_eq!(with("").err(), Some(Error::InvalidSignalingDocument));
    let lines = |uri: &str| -> Vec<Attribute> {
        with(uri).unwrap().media_descriptions[0]
            .attributes
            .iter()
            .filter(|a| a.key == "extmap")
            .cloned()
            .collect()
    };
    assert_eq!(
        lines("urn:ietf:params:rtp-hdrext:ssrc-audio-level"),
        vec![attr("extmap", Some("3 urn:ietf:params:rtp-hdrext:ssrc-audio-level"))]
    );
    // the URI is written as it was given, not as it is read
    assert_eq!(
        lines("HTTP://Example.COM"),
        vec![attr("extmap", Some("3 HTTP://Example.COM"))]
    );
}

#[test]
fn encode_rejects_an_unsupported_hash_function() {
    let with = |hash: Algo| {
        let transport = Transport::new().with_fingerprint(Fingerprint {
            hash,
            setup: Some(Setup::Active),
            value: vec![0x0a, 0xff],
        });
        encode(&message(described(vec![], vec![]), Some(transport)))
    };
    let line = |hash: Algo| -> Option<String> {
        with(hash).unwrap().media_descriptions[0]
            .attributes
            .iter()
            .find(|a| a.key == "fingerprint")
            .and_then(|a| a.value.clone())
    };
    assert_eq!(line(Algo::Sha1), Some(text("sha-1 0A:FF")));
    assert_eq!(line(Algo::Sha256), Some(text("sha-256 0A:FF")));
    assert_eq!(line(Algo::Sha512), Some(text("sha-512 0A:FF")));
    for name in ["sha-224", "sha-384", "shake128", "shake256", "md5", "md2"] {
        assert_eq!(line(Algo::Unknown(text(name))), Some(format!("{} 0A:FF", name)));
    }
    for hash in [
        Algo::Sha3_256,
        Algo::Sha3_512,
        Algo::Blake2b256,
        Algo::Blake2b512,
        Algo::Unknown(text("sha-1")),
        Algo::Unknown(text("whirlpool")),
        Algo::Unknown(text("")),
    ] {
        assert_eq!(with(hash).err(), Some(Error::InvalidSignalingDocument));
    }
}

#[test]
fn encode_rejects_a_malformed_address() {
    let mut jingle = message(described(vec![], vec![]), None);
    jingle.initiator = Some(text("focus@auth.example/focus"));
    jingle.responder = Some(text("example"));
    assert!(encode(&jingle).is_ok());
    jingle.responder = Some(text("@example"));
    assert_eq!(encode(&jingle).err(), Some(Error::InvalidIdentity));
    jingle.responder = None;
    jingle.initiator = Some(text("a@b/"));
    assert_eq!(encode(&jingle).err(), Some(Error::InvalidIdentity));
    assert_eq!(SessionDescription::try_from_jingle(&jingle).err(), Some(Error::InvalidIdentity));
    // the address counts before a defect of a content
    jingle.contents[0].description.as_mut().unwrap().payload_types = vec![codec(None, None)];
    assert_eq!(encode(&jingle).err(), Some(Error::InvalidIdentity));
}

#[test]
fn addresses_are_held_as_they_are_given() {
    let sdp = session(vec![], vec![]);
    let good = [
        "b", "a@b", "b/c", "a@b/c", "a@b@c", "a@@b", "a/b@c", "b/c/d", "a@b/c@d/e", "é@ü/ø", " @ / ",
    ];
    for good in good {
        let jingle = sdp.try_to_jingle(Action::SessionAccept, "sid", good, "d@e/f").unwrap();
        assert_eq!(jingle.initiator.as_deref(), Some(good));
        assert_eq!(jingle.responder.as_deref(), Some("d@e/f"));
    }
    for bad in ["", "@", "/", "@b/c", "a@", "a@/", "a@/c", "b/", "a@b/", "/b@c"] {
        assert_eq!(
            sdp.try_to_jingle(Action::SessionAccept, "sid", "a@b/c", bad),
            Err(Error::InvalidIdentity),
            "{:?}",
            bad
        );
    }
}

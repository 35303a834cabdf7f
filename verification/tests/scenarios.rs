use jitsi_jingle_sdp::description::{
    Attribute, MediaDescription, MediaName, Origin, RangedPort, SessionDescription,
};
use jitsi_jingle_sdp::error::Error;
use jitsi_jingle_sdp::grouping::group_sources;
use jitsi_jingle_sdp::jingle::{
    Action, Algo, Candidate, CandidateType, Content, Creator, Fingerprint, Group, GroupSemantics,
    Jingle, Parameter, PayloadType, RtcpFb, RtpDescription, RtpHdrext, Semantics, Senders, Setup,
    Source, SourceGroup, SourceParameter, Transport,
};

fn text(s: &str) -> String {
    s.to_string()
}

fn attr(key: &str, value: Option<&str>) -> Attribute {
    Attribute { key: text(key), value: value.map(text) }
}

fn block(media: &str, attributes: Vec<Attribute>) -> MediaDescription {
    MediaDescription {
        media_name: MediaName {
            media: text(media),
            port: RangedPort { value: 9, range: None },
            protos: vec![text("UDP"), text("TLS"), text("RTP"), text("SAVPF")],
            formats: vec![text("111")],
        },
        media_title: None,
        connection_information: None,
        bandwidth: vec![],
        encryption_key: None,
        attributes,
    }
}

fn origin() -> Origin {
    Origin {
        username: text("-"),
        session_id: 7,
        session_version: 2,
        network_type: text("IN"),
        address_type: text("IP4"),
        unicast_address: text("0.0.0.0"),
    }
}

fn session(attributes: Vec<Attribute>, blocks: Vec<MediaDescription>) -> SessionDescription {
    SessionDescription {
        version: 0,
        origin: origin(),
        session_name: text("-"),
        session_information: None,
        uri: None,
        email_address: None,
        phone_number: None,
        connection_information: None,
        bandwidth: vec![],
        time_descriptions: vec![],
        time_zones: vec![],
        encryption_key: None,
        attributes,
        media_descriptions: blocks,
    }
}

fn source(id: u32, owner: Option<&str>, msid: Option<&str>) -> Source {
    Source {
        id,
        parameters: match msid {
            Some(msid) => vec![SourceParameter { name: text("msid"), value: Some(text(msid)) }],
            None => vec![],
        },
        owner: owner.map(text),
    }
}

fn opus() -> PayloadType {
    PayloadType {
        id: 111,
        name: Some(text("opus")),
        clockrate: Some(48000),
        channels: 2,
        ptime: None,
        maxptime: None,
        parameters: vec![],
        rtcp_fbs: vec![],
    }
}

fn description(media: &str, sources: Vec<Source>, groups: Vec<SourceGroup>) -> RtpDescription {
    RtpDescription {
        media: text(media),
        ssrc: None,
        payload_types: vec![opus()],
        rtcp_mux: false,
        ssrc_groups: groups,
        ssrcs: sources,
        hdrexts: vec![],
    }
}

fn jingle(contents: Vec<Content>) -> Jingle {
    Jingle {
        action: Action::SessionInitiate,
        initiator: None,
        responder: None,
        sid: text("sid"),
        contents,
        group: None,
    }
}

fn content(description: RtpDescription) -> Content {
    Content {
        creator: Creator::Initiator,
        name: description.media.clone(),
        senders: Senders::Both,
        description: Some(description),
        transport: None,
    }
}

fn keys(block: &MediaDescription) -> Vec<&str> {
    block.attributes.iter().map(|a| a.key.as_str()).collect()
}

fn value<'a>(block: &'a MediaDescription, key: &str) -> Option<&'a str> {
    block.attributes.iter().find(|a| a.key == key).and_then(|a| a.value.as_deref())
}

#[test]
fn three_audio_sources_make_three_blocks() {
    let audio = description(
        "audio",
        vec![
            source(11, Some("alice@conference.example/a"), Some("a-audio track-a")),
            source(10, Some("jvb"), Some("mixedmslabel mix-a")),
            source(12, Some("bob@conference.example/b"), Some("b-audio track-b")),
        ],
        vec![],
    );
    let sdp = SessionDescription::from_jingle_with_origin(&jingle(vec![content(audio)]), origin())
        .unwrap();

    assert_eq!(sdp.media_descriptions.len(), 3);
    for block in &sdp.media_descriptions {
        assert_eq!(block.media_name.media, "audio");
        assert_eq!(block.media_name.formats, vec![text("111")]);
    }
    assert_eq!(
        keys(&sdp.media_descriptions[0]),
        vec!["rtpmap", "rtcp", "mid", "msid", "sendrecv", "ssrc"]
    );
    assert_eq!(
        keys(&sdp.media_descriptions[1]),
        vec!["rtpmap", "rtcp", "mid", "msid", "sendonly", "ssrc"]
    );
    assert_eq!(
        keys(&sdp.media_descriptions[2]),
        vec!["rtpmap", "rtcp", "mid", "msid", "sendonly", "ssrc"]
    );
    assert_eq!(value(&sdp.media_descriptions[0], "ssrc"), Some("10 msid:mixedmslabel mix-a"));
    assert_eq!(value(&sdp.media_descriptions[1], "ssrc"), Some("11 msid:a-audio track-a"));
    assert_eq!(value(&sdp.media_descriptions[2], "ssrc"), Some("12 msid:b-audio track-b"));
    assert_eq!(value(&sdp.media_descriptions[0], "mid"), Some("0"));
    assert_eq!(value(&sdp.media_descriptions[1], "mid"), Some("1"));
    assert_eq!(value(&sdp.media_descriptions[2], "mid"), Some("2"));
    assert_eq!(value(&sdp.media_descriptions[0], "rtpmap"), Some("111 opus/48000/2"));
    assert_eq!(value(&sdp.media_descriptions[0], "rtcp"), Some("1 IN IP4 0.0.0.0"));
}

#[test]
fn six_blocks_fold_into_two_contents() {
    let audio = |ssrc: &str| {
        block(
            "audio",
            vec![
                attr("rtpmap", Some("111 opus/48000/2")),
                attr("sendrecv", None),
                attr("ssrc", Some(ssrc)),
            ],
        )
    };
    let video = |ssrc: &str| {
        block(
            "video",
            vec![
                attr("rtpmap", Some("100 VP8/90000")),
                attr("sendonly", None),
                attr("ssrc", Some(ssrc)),
            ],
        )
    };
    let sdp = session(
        vec![attr("group", Some("BUNDLE 0 1 2 3 4 5"))],
        vec![
            audio("1 cname:a"),
            audio("2 cname:b"),
            audio("3 cname:c"),
            video("4 cname:a"),
            video("5 cname:b"),
            video("6 cname:c"),
        ],
    );

    let jingle = sdp.try_to_jingle(Action::SessionAccept, "sid", "a@b/c", "d@e/f").unwrap();

    assert_eq!(jingle.contents.len(), 2);
    assert_eq!(jingle.contents[0].name, "audio");
    assert_eq!(jingle.contents[1].name, "video");
    assert_eq!(jingle.contents[0].senders, Senders::Both);
    assert_eq!(jingle.contents[1].senders, Senders::Responder);
    let ids = |content: &Content| -> Vec<u32> {
        content.description.as_ref().unwrap().ssrcs.iter().map(|s| s.id).collect()
    };
    assert_eq!(ids(&jingle.contents[0]), vec![1, 2, 3]);
    assert_eq!(ids(&jingle.contents[1]), vec![4, 5, 6]);
    assert_eq!(jingle.contents[0].description.as_ref().unwrap().payload_types.len(), 1);
    assert_eq!(
        jingle.group,
        Some(Group { semantics: GroupSemantics::Bundle, contents: vec![text("audio"), text("video")] })
    );
}

#[test]
fn blocks_of_one_type_fold_even_when_they_alternate() {
    let sdp = session(
        vec![],
        vec![
            block("audio", vec![attr("ssrc", Some("1 cname:a"))]),
            block("video", vec![attr("ssrc", Some("2 cname:a"))]),
            block("audio", vec![attr("ssrc", Some("3 cname:b")), attr("rtpmap", Some("x"))]),
        ],
    );
    let jingle = sdp.try_to_jingle(Action::SessionAccept, "sid", "a@b", "d@e").unwrap();
    assert_eq!(jingle.contents.len(), 2);
    assert_eq!(jingle.contents[0].name, "audio");
    assert_eq!(jingle.contents[0].description.as_ref().unwrap().ssrcs.len(), 2);
    assert_eq!(jingle.contents[0].senders, Senders::Neither);
    assert_eq!(jingle.group, None);
}

fn audio_session() -> SessionDescription {
    session(
        vec![],
        vec![block(
            "audio",
            vec![
                attr("rtpmap", Some("111 opus/48000/2")),
                attr("rtcp", Some("1 IN IP4 0.0.0.0")),
                attr("setup", Some("actpass")),
                attr("mid", Some("0")),
                attr("msid", Some("mixedmslabel mix-a")),
                attr("sendrecv", None),
                attr("ssrc", Some("10 msid:mixedmslabel mix-a")),
                attr("ice-ufrag", Some("u")),
                attr("ice-pwd", Some("p")),
                attr("candidate", Some("1 1 udp 1 10.0.0.1 10000 typ host generation 0")),
                attr("rtcp-mux", None),
            ],
        )],
    )
}

#[test]
fn source_add_appends_two_blocks() {
    let mut sdp = audio_session();
    let before = audio_session();
    let delta = jingle(vec![content(description(
        "audio",
        vec![
            source(21, Some("alice@conference.example/a"), Some("a-audio track-a")),
            source(22, Some("bob@conference.example/b"), Some("b-audio track-b")),
        ],
        vec![],
    ))]);

    assert_eq!(sdp.add_sources_from_jingle(&delta), Ok(()));

    assert_eq!(sdp.media_descriptions.len(), 3);
    assert_eq!(sdp.media_descriptions[0], before.media_descriptions[0]);
    for (k, ssrc) in [(1usize, "21 msid:a-audio track-a"), (2usize, "22 msid:b-audio track-b")] {
        let added = &sdp.media_descriptions[k];
        assert_eq!(added.media_name, before.media_descriptions[0].media_name);
        assert_eq!(
            keys(added),
            vec![
                "rtpmap",
                "rtcp",
                "setup",
                "ice-ufrag",
                "ice-pwd",
                "candidate",
                "rtcp-mux",
                "mid",
                "msid",
                "sendonly",
                "ssrc",
            ]
        );
        assert_eq!(value(added, "mid"), Some(format!("{}", k).as_str()));
        assert_eq!(value(added, "ssrc"), Some(ssrc));
        assert_eq!(value(added, "rtpmap"), Some("111 opus/48000/2"));
    }
    assert_eq!(sdp.attributes, before.attributes);
    assert_eq!(sdp.origin, before.origin);
}

#[test]
fn source_add_with_an_empty_delta_changes_nothing() {
    let mut sdp = audio_session();
    assert_eq!(sdp.add_sources_from_jingle(&jingle(vec![])), Ok(()));
    assert_eq!(sdp, audio_session());
    assert_eq!(
        sdp.add_sources_from_jingle(&jingle(vec![content(description("audio", vec![], vec![]))])),
        Ok(())
    );
    assert_eq!(sdp, audio_session());
    let without_description = Content {
        creator: Creator::Initiator,
        name: text("audio"),
        senders: Senders::Both,
        description: None,
        transport: Some(Transport::new()),
    };
    assert_eq!(sdp.add_sources_from_jingle(&jingle(vec![without_description])), Ok(()));
    assert_eq!(sdp, audio_session());
}

#[test]
fn source_add_passes_over_a_media_type_without_a_block() {
    let mut sdp = audio_session();
    let delta =
        jingle(vec![content(description("video", vec![source(31, None, Some("v t"))], vec![]))]);
    assert_eq!(sdp.add_sources_from_jingle(&delta), Ok(()));
    assert_eq!(sdp, audio_session());
}

#[test]
fn source_add_writes_declared_groups() {
    let mut sdp = audio_session();
    let delta = jingle(vec![content(description(
        "audio",
        vec![source(41, None, Some("s t")), source(42, None, None)],
        vec![SourceGroup { semantics: Semantics::Fid, sources: vec![41, 42] }],
    ))]);
    assert_eq!(sdp.add_sources_from_jingle(&delta), Ok(()));
    assert_eq!(sdp.media_descriptions.len(), 2);
    let added = &sdp.media_descriptions[1];
    assert_eq!(value(added, "mid"), Some("1"));
    assert_eq!(value(added, "msid"), Some("s t"));
    assert_eq!(value(added, "ssrc"), Some("41 msid:s t"));
    assert_eq!(value(added, "ssrc-group"), Some("FID 41 42"));
}

#[test]
fn source_removal_is_not_provided() {
    let mut sdp = audio_session();
    assert_eq!(sdp.remove_sources_from_jingle(&jingle(vec![])), Err(Error::Unsupported));
    assert_eq!(sdp, audio_session());
    assert_eq!(Error::Unsupported.message(), "unsupported operation");
}

#[test]
fn grouping_counts_declared_groups_and_loose_sources() {
    let d = description(
        "video",
        vec![
            source(1, None, Some("a t")),
            source(2, None, Some("a t")),
            source(3, None, Some("b t")),
            source(4, Some("jvb"), Some("mixedmslabel mix-v")),
            source(5, None, None),
        ],
        vec![
            SourceGroup { semantics: Semantics::Fid, sources: vec![1, 2] },
            SourceGroup { semantics: Semantics::Sim, sources: vec![3, 99] },
        ],
    );
    let groups = group_sources(&d);
    // two declared groups and two sources that no group names
    assert_eq!(groups.len(), 4);
    let ids: Vec<Vec<u32>> =
        groups.iter().map(|(_, sources)| sources.iter().map(|s| s.id).collect()).collect();
    // the mixed source first, then the other loose source, then the groups;
    // the member that no source stands for is passed over
    assert_eq!(ids, vec![vec![4], vec![5], vec![1, 2], vec![3]]);
    assert_eq!(groups[0].0, None);
    assert_eq!(groups[1].0, None);
    assert_eq!(groups[2].0, Some(&d.ssrc_groups[0]));
    assert_eq!(groups[3].0, Some(&d.ssrc_groups[1]));
    // every source stands in one group and in one only
    let mut all: Vec<u32> = ids.into_iter().flatten().collect();
    all.sort();
    assert_eq!(all, vec![1, 2, 3, 4, 5]);
}

#[test]
fn a_group_with_a_mixed_member_goes_first() {
    let d = description(
        "video",
        vec![
            source(1, None, Some("a t")),
            source(2, None, Some("mixedmslabel mix")),
            source(3, None, Some("mixedmslabelnot a-mix")),
            source(4, None, Some("b t")),
        ],
        vec![SourceGroup { semantics: Semantics::Fid, sources: vec![4, 2] }],
    );
    let groups = group_sources(&d);
    let ids: Vec<Vec<u32>> =
        groups.iter().map(|(_, sources)| sources.iter().map(|s| s.id).collect()).collect();
    assert_eq!(ids, vec![vec![4, 2], vec![1], vec![3]]);
}

#[test]
fn a_member_stands_for_the_last_source_of_its_ssrc() {
    let d = description(
        "video",
        vec![source(1, None, Some("first t")), source(1, None, Some("second t"))],
        vec![SourceGroup { semantics: Semantics::Fid, sources: vec![1] }],
    );
    let groups = group_sources(&d);
    assert_eq!(groups.len(), 1);
    assert_eq!(groups[0].1.len(), 1);
    assert_eq!(groups[0].1[0].parameters[0].value, Some(text("second t")));
}

#[test]
fn a_description_without_sources_makes_no_block() {
    let sdp = SessionDescription::from_jingle_with_origin(
        &jingle(vec![content(description("audio", vec![], vec![]))]),
        origin(),
    )
    .unwrap();
    assert!(sdp.media_descriptions.is_empty());
    assert_eq!(sdp.attributes, vec![attr("msid-semantic", Some(" WMS *"))]);
    assert_eq!(sdp.version, 0);
    assert_eq!(sdp.session_name, "-");
    assert_eq!(sdp.time_descriptions.len(), 1);
    assert_eq!(sdp.origin, origin());
}

#[test]
fn a_content_without_a_description_makes_no_block() {
    let bare = Content {
        creator: Creator::Initiator,
        name: text("data"),
        senders: Senders::Both,
        description: None,
        transport: None,
    };
    let mut message = jingle(vec![
        bare,
        content(description("audio", vec![source(1, None, None)], vec![])),
    ]);
    message.group =
        Some(Group { semantics: GroupSemantics::Bundle, contents: vec![text("audio")] });
    let sdp = SessionDescription::from_jingle_with_origin(&message, origin()).unwrap();
    assert_eq!(sdp.media_descriptions.len(), 1);
    assert_eq!(sdp.attributes[1], attr("group", Some("BUNDLE 0")));
    assert_eq!(keys(&sdp.media_descriptions[0]), vec!["rtpmap", "rtcp", "mid", "sendonly"]);
}

#[test]
fn a_new_session_has_a_fresh_origin() {
    let sdp = SessionDescription::try_from_jingle(&jingle(vec![])).unwrap();
    assert_eq!(sdp.origin.username, "-");
    assert_eq!(sdp.origin.network_type, "IN");
    assert_eq!(sdp.origin.address_type, "IP4");
    assert_eq!(sdp.origin.unicast_address, "0.0.0.0");
    assert!(sdp.media_descriptions.is_empty());
}

#[test]
fn encoding_and_decoding_keeps_codecs_sources_and_groups() {
    let mut video = description(
        "video",
        vec![
            source(1, Some("jvb"), Some("mixedmslabel mix-v")),
            source(2, None, Some("a-video t")),
            source(3, None, Some("a-video t")),
        ],
        vec![SourceGroup { semantics: Semantics::Fid, sources: vec![2, 3] }],
    );
    video.payload_types = vec![PayloadType {
        id: 100,
        name: Some(text("VP8")),
        clockrate: Some(90000),
        channels: 1,
        ptime: None,
        maxptime: None,
        parameters: vec![Parameter {
            name: text("x-google-start-bitrate"),
            value: text("800"),
        }],
        rtcp_fbs: vec![
            RtcpFb { type_: text("nack"), subtype: Some(text("pli")) },
            RtcpFb { type_: text("transport-cc"), subtype: None },
        ],
    }];
    let audio = description("audio", vec![source(9, None, Some("a-audio t"))], vec![]);
    let message = jingle(vec![content(audio), content(video)]);

    let sdp = SessionDescription::from_jingle_with_origin(&message, origin()).unwrap();
    let back = sdp.try_to_jingle(Action::SessionInitiate, "sid", "a@b/c", "d@e/f").unwrap();

    assert_eq!(back.contents.len(), 2);
    for (given, read) in message.contents.iter().zip(back.contents.iter()) {
        let given = given.description.as_ref().unwrap();
        let read = read.description.as_ref().unwrap();
        assert_eq!(given.media, read.media);
        assert_eq!(given.payload_types, read.payload_types);
        assert_eq!(given.ssrc_groups, read.ssrc_groups);
        let parameters = |d: &RtpDescription| -> Vec<(u32, Vec<SourceParameter>)> {
            d.ssrcs.iter().map(|s| (s.id, s.parameters.clone())).collect()
        };
        assert_eq!(parameters(given), parameters(read));
    }
}

#[test]
fn encoding_and_decoding_keeps_extensions_and_transport() {
    let mut audio = description("audio", vec![source(9, Some("jvb"), Some("a-audio t"))], vec![]);
    audio.rtcp_mux = true;
    audio.hdrexts = vec![
        RtpHdrext { id: 1, uri: text("urn:ietf:params:rtp-hdrext:ssrc-audio-level") },
        RtpHdrext { id: 5, uri: text("http://www.webrtc.org/experiments/rtp-hdrext/abs-send-time") },
    ];
    let candidate = |type_: CandidateType, related: Option<(&str, u16)>| Candidate {
        foundation: text("1"),
        component: 1,
        protocol: text("udp"),
        priority: 2130706431,
        ip: text("2406:da18:f72:6d01:703c:126:854c:2111"),
        port: 10000,
        type_,
        rel_addr: related.map(|(a, _)| text(a)),
        rel_port: related.map(|(_, p)| p),
        generation: 0,
    };
    let transport = Transport {
        pwd: Some(text("pwd")),
        ufrag: Some(text("ufrag")),
        candidates: vec![
            candidate(CandidateType::Host, None),
            candidate(CandidateType::Srflx, Some(("10.228.1.45", 10000))),
        ],
        fingerprint: Some(Fingerprint {
            hash: Algo::Sha256,
            setup: Some(Setup::Actpass),
            value: vec![0x9f, 0x21, 0x00],
        }),
        web_socket: None,
    };
    let mut given = content(audio);
    given.transport = Some(transport);
    given.creator = Creator::Responder;
    let mut message = jingle(vec![given]);
    message.group = Some(Group { semantics: GroupSemantics::Bundle, contents: vec![text("audio")] });
    message.initiator = Some(text("a@b/c"));
    message.responder = Some(text("d@e/f"));

    let sdp = SessionDescription::from_jingle_with_origin(&message, origin()).unwrap();
    let back = sdp.try_to_jingle(Action::SessionInitiate, "sid", "a@b/c", "d@e/f").unwrap();

    // all but the owner of the source and the SSRC that the description
    // names as its own, which are not written and read respectively
    let mut expected = message.clone();
    let description = expected.contents[0].description.as_mut().unwrap();
    description.ssrcs[0].owner = None;
    description.ssrc = Some(text("9"));
    assert_eq!(back, expected);
}

fn mids(sdp: &SessionDescription) -> Vec<Option<String>> {
    sdp.media_descriptions.iter().map(|b| value(b, "mid").map(text)).collect()
}

fn one_new_source() -> Jingle {
    jingle(vec![content(description("audio", vec![source(21, None, Some("a t"))], vec![]))])
}

fn audio_blocks(held: &[Option<&str>]) -> SessionDescription {
    session(
        vec![],
        held.iter()
            .map(|mid| {
                let mut attributes = vec![attr("rtpmap", Some("111 opus/48000/2"))];
                if let Some(mid) = mid {
                    attributes.push(attr("mid", Some(mid)));
                }
                block("audio", attributes)
            })
            .collect(),
    )
}

#[test]
fn source_add_takes_the_next_unused_mid() {
    // a description whose mids are not the numbers from 0 on
    let mut sdp = audio_blocks(&[Some("1")]);
    assert_eq!(sdp.add_sources_from_jingle(&one_new_source()), Ok(()));
    assert_eq!(mids(&sdp), vec![Some(text("1")), Some(text("2"))]);

    let mut sdp = audio_blocks(&[Some("5"), Some("2")]);
    let two = jingle(vec![content(description(
        "audio",
        vec![source(21, None, Some("a t")), source(22, None, Some("b t"))],
        vec![],
    ))]);
    assert_eq!(sdp.add_sources_from_jingle(&two), Ok(()));
    assert_eq!(
        mids(&sdp),
        vec![Some(text("5")), Some(text("2")), Some(text("6")), Some(text("7"))]
    );
    // and once more, after the blocks that were added
    assert_eq!(sdp.add_sources_from_jingle(&one_new_source()), Ok(()));
    assert_eq!(mids(&sdp)[4], Some(text("8")));

    // a mid that denotes no number takes none away
    let mut sdp = audio_blocks(&[Some("audio"), None]);
    assert_eq!(sdp.add_sources_from_jingle(&one_new_source()), Ok(()));
    assert_eq!(mids(&sdp), vec![Some(text("audio")), None, Some(text("0"))]);

    let mut sdp = audio_blocks(&[Some("007"), Some("+3")]);
    assert_eq!(sdp.add_sources_from_jingle(&one_new_source()), Ok(()));
    assert_eq!(mids(&sdp)[2], Some(text("8")));

    // the numbers of all blocks count, also of those of another media type
    let mut sdp = audio_blocks(&[Some("0")]);
    sdp.media_descriptions.push(block("video", vec![attr("mid", Some("9"))]));
    assert_eq!(sdp.add_sources_from_jingle(&one_new_source()), Ok(()));
    assert_eq!(mids(&sdp)[2], Some(text("10")));
}

#[test]
fn source_add_fails_where_the_mids_run_out() {
    let mut sdp = audio_blocks(&[Some("999999999999999998")]);
    let two = jingle(vec![content(description(
        "audio",
        vec![source(21, None, Some("a t")), source(22, None, Some("b t"))],
        vec![],
    ))]);
    assert_eq!(sdp.add_sources_from_jingle(&two), Err(Error::InvalidSignalingDocument));
    assert_eq!(sdp, audio_blocks(&[Some("999999999999999998")]));
    assert_eq!(sdp.add_sources_from_jingle(&one_new_source()), Ok(()));
    assert_eq!(mids(&sdp)[1], Some(text("999999999999999999")));
    assert_eq!(sdp.add_sources_from_jingle(&one_new_source()), Err(Error::InvalidSignalingDocument));
    assert_eq!(sdp.media_descriptions.len(), 2);
    // nothing to add is no failure
    assert_eq!(sdp.add_sources_from_jingle(&jingle(vec![])), Ok(()));
    // a number above the largest that is read as a mid is no number
    let mut sdp = audio_blocks(&[Some("1000000000000000000")]);
    assert_eq!(sdp.add_sources_from_jingle(&one_new_source()), Ok(()));
    assert_eq!(mids(&sdp)[1], Some(text("0")));
}

fn read_back(message: &Jingle) -> Jingle {
    let sdp = SessionDescription::from_jingle_with_origin(message, origin()).unwrap();
    sdp.try_to_jingle(Action::SessionInitiate, "sid", "a@b/c", "d@e/f").unwrap()
}

#[test]
fn payload_types_come_back_as_the_lines_say_them() {
    let mut audio = description("audio", vec![source(9, None, Some("a-audio t"))], vec![]);
    audio.payload_types = vec![
        PayloadType {
            id: 111,
            name: Some(text("opus")),
            clockrate: Some(48000),
            channels: 0,
            ptime: Some(20),
            maxptime: Some(60),
            parameters: vec![
                Parameter { name: text("minptime"), value: text("10") },
                Parameter { name: text("useinbandfec"), value: text("1") },
            ],
            rtcp_fbs: vec![RtcpFb { type_: text("transport-cc"), subtype: None }],
        },
        PayloadType { id: 103, name: Some(text("ISAC")), clockrate: Some(16000), ..opus() },
        // an id that is used twice, without parameters and feedback entries
        PayloadType { id: 126, name: Some(text("telephone-event")), channels: 1, ..opus() },
        PayloadType { id: 126, name: Some(text("telephone-event")), clockrate: Some(8000), ..opus() },
    ];
    let given = audio.payload_types.clone();
    let back = read_back(&jingle(vec![content(audio)]));

    let read = &back.contents[0].description.as_ref().unwrap().payload_types;
    assert_eq!(read.len(), 4);
    assert_eq!(read[0], PayloadType { channels: 1, ptime: None, maxptime: None, ..given[0].clone() });
    assert_eq!(read[1..], given[1..]);
}

#[test]
fn sources_and_groups_come_back_in_the_order_of_their_blocks() {
    let group = |semantics: Semantics, sources: Vec<u32>| SourceGroup { semantics, sources };
    let video = description(
        "video",
        vec![
            source(1, None, Some("a-video t")),
            source(2, Some("jvb"), Some("b-video t")),
            source(3, None, Some("c-video t")),
            source(4, None, Some("mixedmslabel mix-v")),
            source(5, Some("someone"), Some("mixedmslabel mix-v")),
            source(6, None, Some("d-video t")),
        ],
        vec![group(Semantics::Sim, vec![3, 1]), group(Semantics::Fid, vec![5, 4])],
    );
    let given = video.clone();
    let back = read_back(&jingle(vec![content(video)]));

    assert_eq!(back.contents.len(), 1);
    let read = back.contents[0].description.as_ref().unwrap();
    assert_eq!(read.media, "video");
    // the group with the mixed sources goes first, then the loose sources,
    // then the other group; members stand in the order of the group
    assert_eq!(read.ssrc_groups, vec![given.ssrc_groups[1].clone(), given.ssrc_groups[0].clone()]);
    let ids: Vec<u32> = read.ssrcs.iter().map(|s| s.id).collect();
    assert_eq!(ids, vec![5, 4, 2, 6, 3, 1]);
    for source in &read.ssrcs {
        let was = given.ssrcs.iter().find(|s| s.id == source.id).unwrap();
        assert_eq!(source.parameters, was.parameters);
        assert_eq!(source.owner, None);
    }
}

#[test]
fn what_cannot_be_read_again_is_refused_or_lost() {
    // a declared group without members is written as a line that is not
    // read again
    let empty = SourceGroup { semantics: Semantics::Fid, sources: vec![] };
    let video = description("video", vec![source(1, None, Some("a t"))], vec![empty]);
    let sdp = SessionDescription::from_jingle_with_origin(&jingle(vec![content(video)]), origin())
        .unwrap();
    assert!(sdp.try_to_jingle(Action::SessionInitiate, "sid", "a@b/c", "d@e/f").is_err());

    // a fingerprint without a role is written without a `setup` line
    let mut audio = content(description("audio", vec![source(9, None, Some("a t"))], vec![]));
    audio.transport = Some(Transport {
        pwd: None,
        ufrag: None,
        candidates: vec![],
        fingerprint: Some(Fingerprint { hash: Algo::Sha256, setup: None, value: vec![1, 2] }),
        web_socket: None,
    });
    let sdp = SessionDescription::from_jingle_with_origin(&jingle(vec![audio]), origin()).unwrap();
    assert!(sdp.try_to_jingle(Action::SessionInitiate, "sid", "a@b/c", "d@e/f").is_err());

    // a source without parameters is written on no line
    let bare = description("audio", vec![source(9, None, None)], vec![]);
    let back = read_back(&jingle(vec![content(bare)]));
    assert!(back.contents[0].description.as_ref().unwrap().ssrcs.is_empty());
}

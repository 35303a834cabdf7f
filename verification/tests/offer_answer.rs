use std::io::Cursor;

use jitsi_jingle_sdp::description::{
    Address, Attribute, Bandwidth, ConnectionInformation, MediaDescription, MediaName, Origin,
    RangedPort, RepeatTime, SessionDescription, TimeDescription, TimeZone, Timing,
};
use jitsi_jingle_sdp::jingle::{
    Action, Algo, Candidate, CandidateType, Content, Creator, Fingerprint, Group, GroupSemantics,
    Jingle, Parameter, PayloadType, RtcpFb, RtpDescription, RtpHdrext, Semantics, Senders, Setup,
    Source, SourceGroup, SourceParameter, Transport,
};

fn text(s: &str) -> String {
    s.to_string()
}

fn codec(
    id: u8,
    name: &str,
    clockrate: u32,
    channels: u8,
    parameters: &[(&str, &str)],
    feedback: &[(&str, Option<&str>)],
) -> PayloadType {
    PayloadType {
        id,
        name: Some(text(name)),
        clockrate: Some(clockrate),
        channels,
        ptime: None,
        maxptime: None,
        parameters: parameters
            .iter()
            .map(|(name, value)| Parameter { name: text(name), value: text(value) })
            .collect(),
        rtcp_fbs: feedback
            .iter()
            .map(|(type_, subtype)| RtcpFb { type_: text(type_), subtype: subtype.map(text) })
            .collect(),
    }
}

fn source(id: u32, owner: Option<&str>, parameters: &[(&str, Option<&str>)]) -> Source {
    Source {
        id,
        parameters: parameters
            .iter()
            .map(|(name, value)| SourceParameter { name: text(name), value: value.map(text) })
            .collect(),
        owner: owner.map(text),
    }
}

fn candidate(
    foundation: &str,
    priority: u32,
    ip: &str,
    type_: CandidateType,
    related: Option<(&str, u16)>,
) -> Candidate {
    Candidate {
        foundation: text(foundation),
        component: 1,
        protocol: text("udp"),
        priority,
        ip: text(ip),
        port: 10000,
        type_,
        rel_addr: related.map(|(address, _)| text(address)),
        rel_port: related.map(|(_, port)| port),
        generation: 0,
    }
}

const OFFER_FINGERPRINT: [u8; 32] = [
    0x9F, 0x21, 0xD6, 0xE6, 0x40, 0x52, 0x7E, 0x10, 0x25, 0x24, 0xB9, 0xA1, 0xE4, 0xAD, 0xE0, 0x03,
    0xB4, 0x9A, 0x1A, 0x91, 0x5F, 0xD0, 0xEA, 0x89, 0xD7, 0x7B, 0xE3, 0x8B, 0x92, 0x16, 0x3D, 0x20,
];

const ANSWER_FINGERPRINT: [u8; 32] = [
    0x27, 0x23, 0x19, 0xCB, 0x18, 0x88, 0x3D, 0x8F, 0xAB, 0x2C, 0x51, 0x8D, 0x86, 0x70, 0x96, 0xBA,
    0x6A, 0x56, 0xA2, 0x20, 0x1A, 0xAE, 0x7F, 0x80, 0x16, 0x27, 0x2A, 0x67, 0x16, 0x3C, 0x56, 0x8C,
];

fn offer_transport() -> Transport {
    Transport {
        pwd: Some(text("2skqeu0fthmib2q5kc7ml66phk")),
        ufrag: Some(text("8un1l1gc8oissf")),
        candidates: vec![
            candidate(
                "1",
                2130706431,
                "2406:da18:f72:6d01:703c:126:854c:2111",
                CandidateType::Host,
                None,
            ),
            candidate("2", 2130706431, "10.228.1.45", CandidateType::Host, None),
            candidate(
                "3",
                1677724415,
                "13.229.216.23",
                CandidateType::Srflx,
                Some(("10.228.1.45", 10000)),
            ),
        ],
        fingerprint: Some(Fingerprint {
            hash: Algo::Sha256,
            setup: Some(Setup::Actpass),
            value: OFFER_FINGERPRINT.to_vec(),
        }),
        web_socket: Some(text(
            "wss://meet.avstack.io/colibri-ws/sin-2482603c.media.avstack.net/4079b55e1160f1d4/f7e91a40?pwd=2skqeu0fthmib2q5kc7ml66phk",
        )),
    }
}

const FOCUS: &str = "respectivearticlesholdoverly@conference.avstack.onavstack.net";

/// The session-initiate message of the focus: an audio content with three
/// sources and a video content with one source and two source groups.
fn session_initiate() -> Jingle {
    let video_feedback: [(&str, Option<&str>); 4] =
        [("ccm", Some("fir")), ("nack", None), ("nack", Some("pli")), ("transport-cc", None)];
    let audio = RtpDescription {
        media: text("audio"),
        ssrc: None,
        payload_types: vec![
            codec(
                111,
                "opus",
                48000,
                2,
                &[("minptime", "10"), ("useinbandfec", "1")],
                &[("transport-cc", None)],
            ),
            codec(103, "ISAC", 16000, 1, &[], &[]),
            codec(104, "ISAC", 32000, 1, &[], &[]),
            codec(126, "telephone-event", 8000, 1, &[], &[]),
        ],
        rtcp_mux: true,
        ssrc_groups: vec![],
        ssrcs: vec![
            source(959822806, Some("jvb"), &[("msid", Some("mixedmslabel mixedlabelaudio0"))]),
            source(
                4173594801,
                Some(&format!("{}/a31b53fe", FOCUS)),
                &[("msid", Some("a31b53fe-audio-2 0215c3ee-69cb-4f4d-b0be-a2a0f9d13c6f-2"))],
            ),
            source(
                2769410349,
                Some(&format!("{}/e4a15029", FOCUS)),
                &[("msid", Some("e4a15029-audio-2 4984f4b0-e293-4a95-bb28-e3c7f4bb85c5-2"))],
            ),
        ],
        hdrexts: vec![
            RtpHdrext { id: 1, uri: text("urn:ietf:params:rtp-hdrext:ssrc-audio-level") },
            RtpHdrext {
                id: 5,
                uri: text(
                    "http://www.ietf.org/id/draft-holmer-rmcat-transport-wide-cc-extensions-01",
                ),
            },
        ],
    };
    let first_video = "a31b53fe-video-2 38dd1275-10f6-4835-925b-c065203f7e8a-2";
    let second_video = "e4a15029-video-2 abac7b09-2fb7-447d-b978-77bb793ed793-2";
    let video = RtpDescription {
        media: text("video"),
        ssrc: None,
        payload_types: vec![
            codec(100, "VP8", 90000, 1, &[("x-google-start-bitrate", "800")], &video_feedback),
            codec(
                107,
                "H264",
                90000,
                1,
                &[
                    ("x-google-start-bitrate", "800"),
                    (
                        "profile-level-id",
                        "42e01f;level-asymmetry-allowed=1;packetization-mode=1;",
                    ),
                ],
                &video_feedback,
            ),
            codec(101, "VP9", 90000, 1, &[("x-google-start-bitrate", "800")], &video_feedback),
            codec(96, "rtx", 90000, 1, &[("apt", "100")], &video_feedback[..3]),
            codec(97, "rtx", 90000, 1, &[("apt", "101")], &video_feedback[..3]),
            codec(99, "rtx", 90000, 1, &[("apt", "107")], &[]),
        ],
        rtcp_mux: true,
        ssrc_groups: vec![
            SourceGroup { semantics: Semantics::Fid, sources: vec![2339496998, 1726149289] },
            SourceGroup { semantics: Semantics::Fid, sources: vec![2735266332, 2639030607] },
        ],
        ssrcs: vec![
            source(1351679567, Some("jvb"), &[("msid", Some("mixedmslabel mixedlabelvideo0"))]),
            source(2339496998, Some(&format!("{}/a31b53fe", FOCUS)), &[("msid", Some(first_video))]),
            source(1726149289, Some(&format!("{}/a31b53fe", FOCUS)), &[("msid", Some(first_video))]),
            source(2735266332, Some(&format!("{}/e4a15029", FOCUS)), &[("msid", Some(second_video))]),
            source(2639030607, Some(&format!("{}/e4a15029", FOCUS)), &[("msid", Some(second_video))]),
        ],
        hdrexts: vec![
            RtpHdrext {
                id: 3,
                uri: text("http://www.webrtc.org/experiments/rtp-hdrext/abs-send-time"),
            },
            RtpHdrext {
                id: 5,
                uri: text(
                    "http://www.ietf.org/id/draft-holmer-rmcat-transport-wide-cc-extensions-01",
                ),
            },
        ],
    };
    Jingle {
        action: Action::SessionInitiate,
        initiator: Some(text("focus@auth.avstack.onavstack.net/focus")),
        responder: None,
        sid: text("5rpgqh5rbclco"),
        contents: vec![
            Content {
                creator: Creator::Initiator,
                name: text("audio"),
                senders: Senders::Both,
                description: Some(audio),
                transport: Some(offer_transport()),
            },
            Content {
                creator: Creator::Initiator,
                name: text("video"),
                senders: Senders::Both,
                description: Some(video),
                transport: Some(offer_transport()),
            },
        ],
        group: Some(Group {
            semantics: GroupSemantics::Bundle,
            contents: vec![text("audio"), text("video")],
        }),
    }
}

fn answer_transport() -> Transport {
    Transport {
        pwd: Some(text("ObUbT6uj3zlm0ZqFvRIR5ktm")),
        ufrag: Some(text("pn49")),
        candidates: vec![],
        fingerprint: Some(Fingerprint {
            hash: Algo::Sha256,
            setup: Some(Setup::Active),
            value: ANSWER_FINGERPRINT.to_vec(),
        }),
        web_socket: None,
    }
}

/// The session-accept message that stands for the answer, without the
/// sources and source groups of its descriptions.
fn session_accept() -> Jingle {
    let video_feedback: [(&str, Option<&str>); 4] =
        [("ccm", Some("fir")), ("nack", None), ("nack", Some("pli")), ("transport-cc", None)];
    let audio = RtpDescription {
        media: text("audio"),
        ssrc: Some(text("721497566")),
        payload_types: vec![
            codec(
                111,
                "opus",
                48000,
                2,
                &[("minptime", "10"), ("useinbandfec", "1")],
                &[("transport-cc", None)],
            ),
            codec(103, "ISAC", 16000, 1, &[], &[]),
            codec(104, "ISAC", 32000, 1, &[], &[]),
            codec(126, "telephone-event", 8000, 1, &[], &[]),
        ],
        rtcp_mux: true,
        ssrc_groups: vec![],
        ssrcs: vec![],
        hdrexts: vec![
            RtpHdrext { id: 1, uri: text("urn:ietf:params:rtp-hdrext:ssrc-audio-level") },
            RtpHdrext {
                id: 5,
                uri: text(
                    "http://www.ietf.org/id/draft-holmer-rmcat-transport-wide-cc-extensions-01",
                ),
            },
        ],
    };
    let video = RtpDescription {
        media: text("video"),
        ssrc: Some(text("1208574038")),
        payload_types: vec![
            codec(100, "VP8", 90000, 1, &[("x-google-start-bitrate", "800")], &video_feedback),
            codec(96, "rtx", 90000, 1, &[("apt", "100")], &video_feedback[..3]),
            codec(101, "VP9", 90000, 1, &[("x-google-start-bitrate", "800")], &video_feedback),
            codec(97, "rtx", 90000, 1, &[("apt", "101")], &video_feedback[..3]),
            codec(
                107,
                "H264",
                90000,
                1,
                &[
                    ("level-asymmetry-allowed", "1"),
                    ("packetization-mode", "1"),
                    ("profile-level-id", "42e01f"),
                    ("x-google-start-bitrate", "800"),
                ],
                &video_feedback,
            ),
            codec(99, "rtx", 90000, 1, &[("apt", "107")], &[]),
        ],
        rtcp_mux: true,
        ssrc_groups: vec![],
        ssrcs: vec![],
        hdrexts: vec![
            RtpHdrext {
                id: 3,
                uri: text("http://www.webrtc.org/experiments/rtp-hdrext/abs-send-time"),
            },
            RtpHdrext {
                id: 5,
                uri: text(
                    "http://www.ietf.org/id/draft-holmer-rmcat-transport-wide-cc-extensions-01",
                ),
            },
        ],
    };
    Jingle {
        action: Action::SessionAccept,
        initiator: Some(text(
            "respectivearticlesholdoverly@conference.avstack.onavstack.net/focus",
        )),
        responder: Some(text(
            "f7e91a40-063d-4f11-9423-b31f5228d8e9@avstack.onavstack.net/3GQxy6tBgrIe",
        )),
        sid: text("5rpgqh5rbclco"),
        contents: vec![
            Content {
                creator: Creator::Responder,
                name: text("audio"),
                senders: Senders::Both,
                description: Some(audio),
                transport: Some(answer_transport()),
            },
            Content {
                creator: Creator::Responder,
                name: text("video"),
                senders: Senders::Both,
                description: Some(video),
                transport: Some(answer_transport()),
            },
        ],
        group: Some(Group {
            semantics: GroupSemantics::Bundle,
            contents: vec![text("audio"), text("video")],
        }),
    }
}

fn attribute_out(a: &Attribute) -> sdp::description::common::Attribute {
    sdp::description::common::Attribute { key: a.key.clone(), value: a.value.clone() }
}

fn connection_out(c: &ConnectionInformation) -> sdp::description::common::ConnectionInformation {
    sdp::description::common::ConnectionInformation {
        network_type: c.network_type.clone(),
        address_type: c.address_type.clone(),
        address: c.address.as_ref().map(|a| sdp::description::common::Address {
            address: a.address.clone(),
            ttl: a.ttl,
            range: a.range,
        }),
    }
}

fn bandwidth_out(b: &Bandwidth) -> sdp::description::common::Bandwidth {
    sdp::description::common::Bandwidth {
        experimental: b.experimental,
        bandwidth_type: b.bandwidth_type.clone(),
        bandwidth: b.bandwidth,
    }
}

fn media_out(m: &MediaDescription) -> sdp::MediaDescription {
    sdp::MediaDescription {
        media_name: sdp::description::media::MediaName {
            media: m.media_name.media.clone(),
            port: sdp::description::media::RangedPort {
                value: m.media_name.port.value,
                range: m.media_name.port.range,
            },
            protos: m.media_name.protos.clone(),
            formats: m.media_name.formats.clone(),
        },
        media_title: m.media_title.clone(),
        connection_information: m.connection_information.as_ref().map(connection_out),
        bandwidth: m.bandwidth.iter().map(bandwidth_out).collect(),
        encryption_key: m.encryption_key.clone(),
        attributes: m.attributes.iter().map(attribute_out).collect(),
    }
}

fn session_out(s: &SessionDescription) -> sdp::SessionDescription {
    sdp::SessionDescription {
        version: s.version,
        origin: sdp::description::session::Origin {
            username: s.origin.username.clone(),
            session_id: s.origin.session_id,
            session_version: s.origin.session_version,
            network_type: s.origin.network_type.clone(),
            address_type: s.origin.address_type.clone(),
            unicast_address: s.origin.unicast_address.clone(),
        },
        session_name: s.session_name.clone(),
        session_information: s.session_information.clone(),
        uri: s.uri.as_ref().map(|u| u.parse().unwrap()),
        email_address: s.email_address.clone(),
        phone_number: s.phone_number.clone(),
        connection_information: s.connection_information.as_ref().map(connection_out),
        bandwidth: s.bandwidth.iter().map(bandwidth_out).collect(),
        time_descriptions: s
            .time_descriptions
            .iter()
            .map(|t| sdp::description::session::TimeDescription {
                timing: sdp::description::session::Timing {
                    start_time: t.timing.start_time,
                    stop_time: t.timing.stop_time,
                },
                repeat_times: t
                    .repeat_times
                    .iter()
                    .map(|r| sdp::description::session::RepeatTime {
                        interval: r.interval,
                        duration: r.duration,
                        offsets: r.offsets.clone(),
                    })
                    .collect(),
            })
            .collect(),
        time_zones: s
            .time_zones
            .iter()
            .map(|z| sdp::description::session::TimeZone {
                adjustment_time: z.adjustment_time,
                offset: z.offset,
            })
            .collect(),
        encryption_key: s.encryption_key.clone(),
        attributes: s.attributes.iter().map(attribute_out).collect(),
        media_descriptions: s.media_descriptions.iter().map(media_out).collect(),
    }
}

fn attribute_in(a: &sdp::description::common::Attribute) -> Attribute {
    Attribute { key: a.key.clone(), value: a.value.clone() }
}

fn connection_in(c: &sdp::description::common::ConnectionInformation) -> ConnectionInformation {
    ConnectionInformation {
        network_type: c.network_type.clone(),
        address_type: c.address_type.clone(),
        address: c.address.as_ref().map(|a| Address {
            address: a.address.clone(),
            ttl: a.ttl,
            range: a.range,
        }),
    }
}

fn bandwidth_in(b: &sdp::description::common::Bandwidth) -> Bandwidth {
    Bandwidth {
        experimental: b.experimental,
        bandwidth_type: b.bandwidth_type.clone(),
        bandwidth: b.bandwidth,
    }
}

fn media_in(m: &sdp::MediaDescription) -> MediaDescription {
    MediaDescription {
        media_name: MediaName {
            media: m.media_name.media.clone(),
            port: RangedPort { value: m.media_name.port.value, range: m.media_name.port.range },
            protos: m.media_name.protos.clone(),
            formats: m.media_name.formats.clone(),
        },
        media_title: m.media_title.clone(),
        connection_information: m.connection_information.as_ref().map(connection_in),
        bandwidth: m.bandwidth.iter().map(bandwidth_in).collect(),
        encryption_key: m.encryption_key.clone(),
        attributes: m.attributes.iter().map(attribute_in).collect(),
    }
}

fn session_in(s: &sdp::SessionDescription) -> SessionDescription {
    SessionDescription {
        version: s.version,
        origin: Origin {
            username: s.origin.username.clone(),
            session_id: s.origin.session_id,
            session_version: s.origin.session_version,
            network_type: s.origin.network_type.clone(),
            address_type: s.origin.address_type.clone(),
            unicast_address: s.origin.unicast_address.clone(),
        },
        session_name: s.session_name.clone(),
        session_information: s.session_information.clone(),
        uri: s.uri.as_ref().map(|u| u.to_string()),
        email_address: s.email_address.clone(),
        phone_number: s.phone_number.clone(),
        connection_information: s.connection_information.as_ref().map(connection_in),
        bandwidth: s.bandwidth.iter().map(bandwidth_in).collect(),
        time_descriptions: s
            .time_descriptions
            .iter()
            .map(|t| TimeDescription {
                timing: Timing {
                    start_time: t.timing.start_time,
                    stop_time: t.timing.stop_time,
                },
                repeat_times: t
                    .repeat_times
                    .iter()
                    .map(|r| RepeatTime {
                        interval: r.interval,
                        duration: r.duration,
                        offsets: r.offsets.clone(),
                    })
                    .collect(),
            })
            .collect(),
        time_zones: s
            .time_zones
            .iter()
            .map(|z| TimeZone { adjustment_time: z.adjustment_time, offset: z.offset })
            .collect(),
        encryption_key: s.encryption_key.clone(),
        attributes: s.attributes.iter().map(attribute_in).collect(),
        media_descriptions: s.media_descriptions.iter().map(media_in).collect(),
    }
}

/// The lines of `sdp` in sections, one for the session and one for each
/// media block, each section with its first line and then its other lines
/// in sorted order.
fn sections(sdp: &str) -> Vec<(String, Vec<String>)> {
    let mut out: Vec<(String, Vec<String>)> = Vec::new();
    for line in sdp.lines() {
        if out.is_empty() || line.starts_with("m=") {
            out.push((line.to_string(), Vec::new()));
        } else {
            out.last_mut().unwrap().1.push(line.to_string());
        }
    }
    for section in out.iter_mut() {
        section.1.sort();
    }
    out
}

#[test]
fn session_initiate_to_offer() {
    let jingle = session_initiate();
    let origin = Origin {
        username: text("-"),
        session_id: 1662446564308,
        session_version: 3,
        network_type: text("IN"),
        address_type: text("IP4"),
        unicast_address: text("0.0.0.0"),
    };

    let sdp = SessionDescription::from_jingle_with_origin(&jingle, origin).unwrap();
    let written = session_out(&sdp).marshal();

    // The blocks hold the lines of the offer. Within a block the codec lines
    // and the source lines stand where the encoder puts them, which is not
    // where this offer has them: the sections are compared line for line in
    // sorted order.
    assert_eq!(sections(OFFER), sections(&written));
    let head: Vec<&str> = written.lines().take(7).collect();
    let expected: Vec<&str> = OFFER.lines().take(7).collect();
    assert_eq!(expected, head);
}

#[test]
fn answer_to_session_accept() {
    let sdp = sdp::SessionDescription::unmarshal(&mut Cursor::new(ANSWER)).unwrap();
    let jingle = session_in(&sdp)
        .try_to_jingle(
            Action::SessionAccept,
            "5rpgqh5rbclco",
            "respectivearticlesholdoverly@conference.avstack.onavstack.net/focus",
            "f7e91a40-063d-4f11-9423-b31f5228d8e9@avstack.onavstack.net/3GQxy6tBgrIe",
        )
        .unwrap();

    // The answer names its sources by `cname` and carries two of the video
    // sources only: the sources and source groups are compared with what
    // the answer holds, and all the rest with the session-accept message.
    let mut rest = jingle.clone();
    for content in rest.contents.iter_mut() {
        let description = content.description.as_mut().unwrap();
        description.ssrcs.clear();
        description.ssrc_groups.clear();
    }
    assert_eq!(session_accept(), rest);

    let audio = jingle.contents[0].description.as_ref().unwrap();
    assert_eq!(
        audio.ssrcs,
        vec![source(
            721497566,
            None,
            &[
                ("cname", Some("dSc2HNsYuQ+Phbpe")),
                ("msid", Some("- 4a1ff5d6-a2a3-4bc0-94ac-d156ec0f04d3")),
            ],
        )]
    );
    assert!(audio.ssrc_groups.is_empty());
    let video = jingle.contents[1].description.as_ref().unwrap();
    assert_eq!(
        video.ssrcs,
        vec![
            source(
                1208574038,
                None,
                &[
                    ("cname", Some("dSc2HNsYuQ+Phbpe")),
                    ("msid", Some("- 1e12a73d-1462-4c3a-8cf3-d3711120ca74")),
                ],
            ),
            source(
                316749150,
                None,
                &[
                    ("cname", Some("dSc2HNsYuQ+Phbpe")),
                    ("msid", Some("- 1e12a73d-1462-4c3a-8cf3-d3711120ca74")),
                ],
            ),
        ]
    );
    assert_eq!(
        video.ssrc_groups,
        vec![SourceGroup { semantics: Semantics::Fid, sources: vec![1208574038, 316749150] }]
    );
}

const OFFER: &str = r#"v=0
o=- 1662446564308 3 IN IP4 0.0.0.0
s=-
t=0 0
a=msid-semantic: WMS *
a=group:BUNDLE 0 1 2 3 4 5
m=audio 9 UDP/TLS/RTP/SAVPF 111 103 104 126
c=IN IP4 0.0.0.0
a=rtpmap:111 opus/48000/2
a=rtpmap:103 ISAC/16000
a=rtpmap:104 ISAC/32000
a=rtpmap:126 telephone-event/8000
a=fmtp:111 minptime=10;useinbandfec=1
a=rtcp:1 IN IP4 0.0.0.0
a=rtcp-fb:111 transport-cc
a=extmap:1 urn:ietf:params:rtp-hdrext:ssrc-audio-level
a=extmap:5 http://www.ietf.org/id/draft-holmer-rmcat-transport-wide-cc-extensions-01
a=setup:actpass
a=mid:0
a=msid:mixedmslabel mixedlabelaudio0
a=sendrecv
a=ice-ufrag:8un1l1gc8oissf
a=ice-pwd:2skqeu0fthmib2q5kc7ml66phk
a=fingerprint:sha-256 9F:21:D6:E6:40:52:7E:10:25:24:B9:A1:E4:AD:E0:03:B4:9A:1A:91:5F:D0:EA:89:D7:7B:E3:8B:92:16:3D:20
a=candidate:1 1 udp 2130706431 2406:da18:f72:6d01:703c:126:854c:2111 10000 typ host generation 0
a=candidate:2 1 udp 2130706431 10.228.1.45 10000 typ host generation 0
a=candidate:3 1 udp 1677724415 13.229.216.23 10000 typ srflx raddr 10.228.1.45 rport 10000 generation 0
a=ssrc:959822806 msid:mixedmslabel mixedlabelaudio0
a=rtcp-mux
m=audio 9 UDP/TLS/RTP/SAVPF 111 103 104 126
c=IN IP4 0.0.0.0
a=rtpmap:111 opus/48000/2
a=rtpmap:103 ISAC/16000
a=rtpmap:104 ISAC/32000
a=rtpmap:126 telephone-event/8000
a=fmtp:111 minptime=10;useinbandfec=1
a=rtcp:1 IN IP4 0.0.0.0
a=rtcp-fb:111 transport-cc
a=extmap:1 urn:ietf:params:rtp-hdrext:ssrc-audio-level
a=extmap:5 http://www.ietf.org/id/draft-holmer-rmcat-transport-wide-cc-extensions-01
a=setup:actpass
a=mid:1
a=msid:a31b53fe-audio-2 0215c3ee-69cb-4f4d-b0be-a2a0f9d13c6f-2
a=sendonly
a=ice-ufrag:8un1l1gc8oissf
a=ice-pwd:2skqeu0fthmib2q5kc7ml66phk
a=fingerprint:sha-256 9F:21:D6:E6:40:52:7E:10:25:24:B9:A1:E4:AD:E0:03:B4:9A:1A:91:5F:D0:EA:89:D7:7B:E3:8B:92:16:3D:20
a=candidate:1 1 udp 2130706431 2406:da18:f72:6d01:703c:126:854c:2111 10000 typ host generation 0
a=candidate:2 1 udp 2130706431 10.228.1.45 10000 typ host generation 0
a=candidate:3 1 udp 1677724415 13.229.216.23 10000 typ srflx raddr 10.228.1.45 rport 10000 generation 0
a=ssrc:4173594801 msid:a31b53fe-audio-2 0215c3ee-69cb-4f4d-b0be-a2a0f9d13c6f-2
a=rtcp-mux
m=audio 9 UDP/TLS/RTP/SAVPF 111 103 104 126
c=IN IP4 0.0.0.0
a=rtpmap:111 opus/48000/2
a=rtpmap:103 ISAC/16000
a=rtpmap:104 ISAC/32000
a=rtpmap:126 telephone-event/8000
a=fmtp:111 minptime=10;useinbandfec=1
a=rtcp:1 IN IP4 0.0.0.0
a=rtcp-fb:111 transport-cc
a=extmap:1 urn:ietf:params:rtp-hdrext:ssrc-audio-level
a=extmap:5 http://www.ietf.org/id/draft-holmer-rmcat-transport-wide-cc-extensions-01
a=setup:actpass
a=mid:2
a=msid:e4a15029-audio-2 4984f4b0-e293-4a95-bb28-e3c7f4bb85c5-2
a=sendonly
a=ice-ufrag:8un1l1gc8oissf
a=ice-pwd:2skqeu0fthmib2q5kc7ml66phk
a=fingerprint:sha-256 9F:21:D6:E6:40:52:7E:10:25:24:B9:A1:E4:AD:E0:03:B4:9A:1A:91:5F:D0:EA:89:D7:7B:E3:8B:92:16:3D:20
a=candidate:1 1 udp 2130706431 2406:da18:f72:6d01:703c:126:854c:2111 10000 typ host generation 0
a=candidate:2 1 udp 2130706431 10.228.1.45 10000 typ host generation 0
a=candidate:3 1 udp 1677724415 13.229.216.23 10000 typ srflx raddr 10.228.1.45 rport 10000 generation 0
a=ssrc:2769410349 msid:e4a15029-audio-2 4984f4b0-e293-4a95-bb28-e3c7f4bb85c5-2
a=rtcp-mux
m=video 9 UDP/TLS/RTP/SAVPF 100 107 101 96 97 99
c=IN IP4 0.0.0.0
a=rtpmap:100 VP8/90000
a=rtpmap:107 H264/90000
a=rtpmap:101 VP9/90000
a=rtpmap:96 rtx/90000
a=rtpmap:97 rtx/90000
a=rtpmap:99 rtx/90000
a=fmtp:100 x-google-start-bitrate=800
a=fmtp:107 x-google-start-bitrate=800;profile-level-id=42e01f;level-asymmetry-allowed=1;packetization-mode=1;
a=fmtp:101 x-google-start-bitrate=800
a=fmtp:96 apt=100
a=fmtp:97 apt=101
a=fmtp:99 apt=107
a=rtcp:1 IN IP4 0.0.0.0
a=rtcp-fb:100 ccm fir
a=rtcp-fb:100 nack
a=rtcp-fb:100 nack pli
a=rtcp-fb:100 transport-cc
a=rtcp-fb:107 ccm fir
a=rtcp-fb:107 nack
a=rtcp-fb:107 nack pli
a=rtcp-fb:107 transport-cc
a=rtcp-fb:101 ccm fir
a=rtcp-fb:101 nack
a=rtcp-fb:101 nack pli
a=rtcp-fb:101 transport-cc
a=rtcp-fb:96 ccm fir
a=rtcp-fb:96 nack
a=rtcp-fb:96 nack pli
a=rtcp-fb:97 ccm fir
a=rtcp-fb:97 nack
a=rtcp-fb:97 nack pli
a=extmap:3 http://www.webrtc.org/experiments/rtp-hdrext/abs-send-time
a=extmap:5 http://www.ietf.org/id/draft-holmer-rmcat-transport-wide-cc-extensions-01
a=setup:actpass
a=mid:3
a=msid:mixedmslabel mixedlabelvideo0
a=sendrecv
a=ice-ufrag:8un1l1gc8oissf
a=ice-pwd:2skqeu0fthmib2q5kc7ml66phk
a=fingerprint:sha-256 9F:21:D6:E6:40:52:7E:10:25:24:B9:A1:E4:AD:E0:03:B4:9A:1A:91:5F:D0:EA:89:D7:7B:E3:8B:92:16:3D:20
a=candidate:1 1 udp 2130706431 2406:da18:f72:6d01:703c:126:854c:2111 10000 typ host generation 0
a=candidate:2 1 udp 2130706431 10.228.1.45 10000 typ host generation 0
a=candidate:3 1 udp 1677724415 13.229.216.23 10000 typ srflx raddr 10.228.1.45 rport 10000 generation 0
a=ssrc:1351679567 msid:mixedmslabel mixedlabelvideo0
a=rtcp-mux
m=video 9 UDP/TLS/RTP/SAVPF 100 107 101 96 97 99
c=IN IP4 0.0.0.0
a=rtpmap:100 VP8/90000
a=rtpmap:107 H264/90000
a=rtpmap:101 VP9/90000
a=rtpmap:96 rtx/90000
a=rtpmap:97 rtx/90000
a=rtpmap:99 rtx/90000
a=fmtp:100 x-google-start-bitrate=800
a=fmtp:107 x-google-start-bitrate=800;profile-level-id=42e01f;level-asymmetry-allowed=1;packetization-mode=1;
a=fmtp:101 x-google-start-bitrate=800
a=fmtp:96 apt=100
a=fmtp:97 apt=101
a=fmtp:99 apt=107
a=rtcp:1 IN IP4 0.0.0.0
a=rtcp-fb:100 ccm fir
a=rtcp-fb:100 nack
a=rtcp-fb:100 nack pli
a=rtcp-fb:100 transport-cc
a=rtcp-fb:107 ccm fir
a=rtcp-fb:107 nack
a=rtcp-fb:107 nack pli
a=rtcp-fb:107 transport-cc
a=rtcp-fb:101 ccm fir
a=rtcp-fb:101 nack
a=rtcp-fb:101 nack pli
a=rtcp-fb:101 transport-cc
a=rtcp-fb:96 ccm fir
a=rtcp-fb:96 nack
a=rtcp-fb:96 nack pli
a=rtcp-fb:97 ccm fir
a=rtcp-fb:97 nack
a=rtcp-fb:97 nack pli
a=extmap:3 http://www.webrtc.org/experiments/rtp-hdrext/abs-send-time
a=extmap:5 http://www.ietf.org/id/draft-holmer-rmcat-transport-wide-cc-extensions-01
a=setup:actpass
a=mid:4
a=msid:a31b53fe-video-2 38dd1275-10f6-4835-925b-c065203f7e8a-2
a=sendonly
a=ice-ufrag:8un1l1gc8oissf
a=ice-pwd:2skqeu0fthmib2q5kc7ml66phk
a=fingerprint:sha-256 9F:21:D6:E6:40:52:7E:10:25:24:B9:A1:E4:AD:E0:03:B4:9A:1A:91:5F:D0:EA:89:D7:7B:E3:8B:92:16:3D:20
a=candidate:1 1 udp 2130706431 2406:da18:f72:6d01:703c:126:854c:2111 10000 typ host generation 0
a=candidate:2 1 udp 2130706431 10.228.1.45 10000 typ host generation 0
a=candidate:3 1 udp 1677724415 13.229.216.23 10000 typ srflx raddr 10.228.1.45 rport 10000 generation 0
a=ssrc:2339496998 msid:a31b53fe-video-2 38dd1275-10f6-4835-925b-c065203f7e8a-2
a=ssrc:1726149289 msid:a31b53fe-video-2 38dd1275-10f6-4835-925b-c065203f7e8a-2
a=ssrc-group:FID 2339496998 1726149289
a=rtcp-mux
m=video 9 UDP/TLS/RTP/SAVPF 100 107 101 96 97 99
c=IN IP4 0.0.0.0
a=rtpmap:100 VP8/90000
a=rtpmap:107 H264/90000
a=rtpmap:101 VP9/90000
a=rtpmap:96 rtx/90000
a=rtpmap:97 rtx/90000
a=rtpmap:99 rtx/90000
a=fmtp:100 x-google-start-bitrate=800
a=fmtp:107 x-google-start-bitrate=800;profile-level-id=42e01f;level-asymmetry-allowed=1;packetization-mode=1;
a=fmtp:101 x-google-start-bitrate=800
a=fmtp:96 apt=100
a=fmtp:97 apt=101
a=fmtp:99 apt=107
a=rtcp:1 IN IP4 0.0.0.0
a=rtcp-fb:100 ccm fir
a=rtcp-fb:100 nack
a=rtcp-fb:100 nack pli
a=rtcp-fb:100 transport-cc
a=rtcp-fb:107 ccm fir
a=rtcp-fb:107 nack
a=rtcp-fb:107 nack pli
a=rtcp-fb:107 transport-cc
a=rtcp-fb:101 ccm fir
a=rtcp-fb:101 nack
a=rtcp-fb:101 nack pli
a=rtcp-fb:101 transport-cc
a=rtcp-fb:96 ccm fir
a=rtcp-fb:96 nack
a=rtcp-fb:96 nack pli
a=rtcp-fb:97 ccm fir
a=rtcp-fb:97 nack
a=rtcp-fb:97 nack pli
a=extmap:3 http://www.webrtc.org/experiments/rtp-hdrext/abs-send-time
a=extmap:5 http://www.ietf.org/id/draft-holmer-rmcat-transport-wide-cc-extensions-01
a=setup:actpass
a=mid:5
a=msid:e4a15029-video-2 abac7b09-2fb7-447d-b978-77bb793ed793-2
a=sendonly
a=ice-ufrag:8un1l1gc8oissf
a=ice-pwd:2skqeu0fthmib2q5kc7ml66phk
a=fingerprint:sha-256 9F:21:D6:E6:40:52:7E:10:25:24:B9:A1:E4:AD:E0:03:B4:9A:1A:91:5F:D0:EA:89:D7:7B:E3:8B:92:16:3D:20
a=candidate:1 1 udp 2130706431 2406:da18:f72:6d01:703c:126:854c:2111 10000 typ host generation 0
a=candidate:2 1 udp 2130706431 10.228.1.45 10000 typ host generation 0
a=candidate:3 1 udp 1677724415 13.229.216.23 10000 typ srflx raddr 10.228.1.45 rport 10000 generation 0
a=ssrc:2735266332 msid:e4a15029-video-2 abac7b09-2fb7-447d-b978-77bb793ed793-2
a=ssrc:2639030607 msid:e4a15029-video-2 abac7b09-2fb7-447d-b978-77bb793ed793-2
a=ssrc-group:FID 2735266332 2639030607
a=rtcp-mux"#;

const ANSWER: &str = r#"v=0
o=- 457839365782951393 2 IN IP4 127.0.0.1
s=-
t=0 0
a=group:BUNDLE 0 1 2 3 4 5
a=msid-semantic: WMS
m=audio 9 UDP/TLS/RTP/SAVPF 111 103 104 126
c=IN IP4 0.0.0.0
a=rtcp:9 IN IP4 0.0.0.0
a=ice-ufrag:pn49
a=ice-pwd:ObUbT6uj3zlm0ZqFvRIR5ktm
a=ice-options:trickle
a=fingerprint:sha-256 27:23:19:CB:18:88:3D:8F:AB:2C:51:8D:86:70:96:BA:6A:56:A2:20:1A:AE:7F:80:16:27:2A:67:16:3C:56:8C
a=setup:active
a=mid:0
a=extmap:1 urn:ietf:params:rtp-hdrext:ssrc-audio-level
a=extmap:5 http://www.ietf.org/id/draft-holmer-rmcat-transport-wide-cc-extensions-01
a=sendrecv
a=msid:- 4a1ff5d6-a2a3-4bc0-94ac-d156ec0f04d3
a=rtcp-mux
a=rtpmap:111 opus/48000/2
a=rtcp-fb:111 transport-cc
a=fmtp:111 minptime=10;useinbandfec=1
a=rtpmap:103 ISAC/16000
a=rtpmap:104 ISAC/32000
a=rtpmap:126 telephone-event/8000
a=ssrc:721497566 cname:dSc2HNsYuQ+Phbpe
m=audio 9 UDP/TLS/RTP/SAVPF 111 103 104 126
c=IN IP4 0.0.0.0
a=rtcp:9 IN IP4 0.0.0.0
a=ice-ufrag:pn49
a=ice-pwd:ObUbT6uj3zlm0ZqFvRIR5ktm
a=ice-options:trickle
a=fingerprint:sha-256 27:23:19:CB:18:88:3D:8F:AB:2C:51:8D:86:70:96:BA:6A:56:A2:20:1A:AE:7F:80:16:27:2A:67:16:3C:56:8C
a=setup:active
a=mid:1
a=extmap:1 urn:ietf:params:rtp-hdrext:ssrc-audio-level
a=extmap:5 http://www.ietf.org/id/draft-holmer-rmcat-transport-wide-cc-extensions-01
a=recvonly
a=rtcp-mux
a=rtpmap:111 opus/48000/2
a=rtcp-fb:111 transport-cc
a=fmtp:111 minptime=10;useinbandfec=1
a=rtpmap:103 ISAC/16000
a=rtpmap:104 ISAC/32000
a=rtpmap:126 telephone-event/8000
m=audio 9 UDP/TLS/RTP/SAVPF 111 103 104 126
c=IN IP4 0.0.0.0
a=rtcp:9 IN IP4 0.0.0.0
a=ice-ufrag:pn49
a=ice-pwd:ObUbT6uj3zlm0ZqFvRIR5ktm
a=ice-options:trickle
a=fingerprint:sha-256 27:23:19:CB:18:88:3D:8F:AB:2C:51:8D:86:70:96:BA:6A:56:A2:20:1A:AE:7F:80:16:27:2A:67:16:3C:56:8C
a=setup:active
a=mid:2
a=extmap:1 urn:ietf:params:rtp-hdrext:ssrc-audio-level
a=extmap:5 http://www.ietf.org/id/draft-holmer-rmcat-transport-wide-cc-extensions-01
a=recvonly
a=rtcp-mux
a=rtpmap:111 opus/48000/2
a=rtcp-fb:111 transport-cc
a=fmtp:111 minptime=10;useinbandfec=1
a=rtpmap:103 ISAC/16000
a=rtpmap:104 ISAC/32000
a=rtpmap:126 telephone-event/8000
m=video 9 UDP/TLS/RTP/SAVPF 100 96 101 97 107 99
c=IN IP4 0.0.0.0
a=rtcp:9 IN IP4 0.0.0.0
a=ice-ufrag:pn49
a=ice-pwd:ObUbT6uj3zlm0ZqFvRIR5ktm
a=ice-options:trickle
a=fingerprint:sha-256 27:23:19:CB:18:88:3D:8F:AB:2C:51:8D:86:70:96:BA:6A:56:A2:20:1A:AE:7F:80:16:27:2A:67:16:3C:56:8C
a=setup:active
a=mid:3
a=extmap:3 http://www.webrtc.org/experiments/rtp-hdrext/abs-send-time
a=extmap:5 http://www.ietf.org/id/draft-holmer-rmcat-transport-wide-cc-extensions-01
a=sendrecv
a=msid:- 1e12a73d-1462-4c3a-8cf3-d3711120ca74
a=rtcp-mux
a=rtpmap:100 VP8/90000
a=rtcp-fb:100 ccm fir
a=rtcp-fb:100 nack
a=rtcp-fb:100 nack pli
a=rtcp-fb:100 transport-cc
a=fmtp:100 x-google-start-bitrate=800
a=rtpmap:96 rtx/90000
a=rtcp-fb:96 ccm fir
a=rtcp-fb:96 nack
a=rtcp-fb:96 nack pli
a=fmtp:96 apt=100
a=rtpmap:101 VP9/90000
a=rtcp-fb:101 ccm fir
a=rtcp-fb:101 nack
a=rtcp-fb:101 nack pli
a=rtcp-fb:101 transport-cc
a=fmtp:101 x-google-start-bitrate=800
a=rtpmap:97 rtx/90000
a=rtcp-fb:97 ccm fir
a=rtcp-fb:97 nack
a=rtcp-fb:97 nack pli
a=fmtp:97 apt=101
a=rtpmap:107 H264/90000
a=rtcp-fb:107 ccm fir
a=rtcp-fb:107 nack
a=rtcp-fb:107 nack pli
a=rtcp-fb:107 transport-cc
a=fmtp:107 ;level-asymmetry-allowed=1;packetization-mode=1;profile-level-id=42e01f;x-google-start-bitrate=800
a=rtpmap:99 rtx/90000
a=fmtp:99 apt=107
a=ssrc-group:FID 1208574038 316749150
a=ssrc:1208574038 cname:dSc2HNsYuQ+Phbpe
a=ssrc:316749150 cname:dSc2HNsYuQ+Phbpe
m=video 9 UDP/TLS/RTP/SAVPF 100 107 101 96 97 99
c=IN IP4 0.0.0.0
a=rtcp:9 IN IP4 0.0.0.0
a=ice-ufrag:pn49
a=ice-pwd:ObUbT6uj3zlm0ZqFvRIR5ktm
a=ice-options:trickle
a=fingerprint:sha-256 27:23:19:CB:18:88:3D:8F:AB:2C:51:8D:86:70:96:BA:6A:56:A2:20:1A:AE:7F:80:16:27:2A:67:16:3C:56:8C
a=setup:active
a=mid:4
a=extmap:3 http://www.webrtc.org/experiments/rtp-hdrext/abs-send-time
a=extmap:5 http://www.ietf.org/id/draft-holmer-rmcat-transport-wide-cc-extensions-01
a=recvonly
a=rtcp-mux
a=rtpmap:100 VP8/90000
a=rtcp-fb:100 transport-cc
a=rtcp-fb:100 ccm fir
a=rtcp-fb:100 nack
a=rtcp-fb:100 nack pli
a=rtpmap:107 H264/90000
a=rtcp-fb:107 transport-cc
a=rtcp-fb:107 ccm fir
a=rtcp-fb:107 nack
a=rtcp-fb:107 nack pli
a=fmtp:107 level-asymmetry-allowed=1;packetization-mode=1;profile-level-id=42e01f
a=rtpmap:101 VP9/90000
a=rtcp-fb:101 transport-cc
a=rtcp-fb:101 ccm fir
a=rtcp-fb:101 nack
a=rtcp-fb:101 nack pli
a=fmtp:101 profile-id=0
a=rtpmap:96 rtx/90000
a=fmtp:96 apt=100
a=rtpmap:97 rtx/90000
a=fmtp:97 apt=101
a=rtpmap:99 rtx/90000
a=fmtp:99 apt=107
m=video 9 UDP/TLS/RTP/SAVPF 100 107 101 96 97 99
c=IN IP4 0.0.0.0
a=rtcp:9 IN IP4 0.0.0.0
a=ice-ufrag:pn49
a=ice-pwd:ObUbT6uj3zlm0ZqFvRIR5ktm
a=ice-options:trickle
a=fingerprint:sha-256 27:23:19:CB:18:88:3D:8F:AB:2C:51:8D:86:70:96:BA:6A:56:A2:20:1A:AE:7F:80:16:27:2A:67:16:3C:56:8C
a=setup:active
a=mid:5
a=extmap:3 http://www.webrtc.org/experiments/rtp-hdrext/abs-send-time
a=extmap:5 http://www.ietf.org/id/draft-holmer-rmcat-transport-wide-cc-extensions-01
a=recvonly
a=rtcp-mux
a=rtpmap:100 VP8/90000
a=rtcp-fb:100 transport-cc
a=rtcp-fb:100 ccm fir
a=rtcp-fb:100 nack
a=rtcp-fb:100 nack pli
a=rtpmap:107 H264/90000
a=rtcp-fb:107 transport-cc
a=rtcp-fb:107 ccm fir
a=rtcp-fb:107 nack
a=rtcp-fb:107 nack pli
a=fmtp:107 level-asymmetry-allowed=1;packetization-mode=1;profile-level-id=42e01f
a=rtpmap:101 VP9/90000
a=rtcp-fb:101 transport-cc
a=rtcp-fb:101 ccm fir
a=rtcp-fb:101 nack
a=rtcp-fb:101 nack pli
a=fmtp:101 profile-id=0
a=rtpmap:96 rtx/90000
a=fmtp:96 apt=100
a=rtpmap:97 rtx/90000
a=fmtp:97 apt=101
a=rtpmap:99 rtx/90000
a=fmtp:99 apt=107
"#;

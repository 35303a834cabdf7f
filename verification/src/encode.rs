//! From a Jingle session to an SDP session description.
//!
//! Each content with a description yields one media block for each of its
//! source groups. The blocks of a content repeat its codecs, header
//! extensions and transport; each block names the sources of its group.

use vstd::prelude::*;
use crate::description::{
    clone_attributes, property, valued, Address, AddressView, Attribute, AttributeView,
    ConnectionInformation, ConnectionInformationView, MediaDescription, MediaDescriptionView,
    MediaName, MediaNameView, Origin, OriginView, RangedPort, SessionDescription,
    SessionDescriptionView, TimeDescription, TimeDescriptionView, Timing,
};
use crate::error::Error;
use crate::grouping::{group_sources, grouped};
use crate::identity::{check_identity, identity_sound};
use crate::jingle::{
    Candidate, CandidateType, CandidateView, Content, ContentView, Fingerprint, FingerprintView,
    Group, GroupView, Jingle, JingleView, Parameter, ParameterView, PayloadType, PayloadTypeView,
    RtcpFbView, RtpDescriptionView, RtpHdrext, RtpHdrextView, Source, SourceGroup, SourceGroupView,
    SourceParameter, SourceParameterView, SourceView, Transport, TransportView,
};
use crate::names::{
    candidate_type_name, candidate_type_text, group_semantics_name, group_semantics_text, hash_name,
    hash_to_name, semantics_name, semantics_text, setup_name, setup_text,
};
use crate::text::{colon_hex, decimal, decimal_string, hex_pair_strings, join, str_eq};
use crate::views::{
    lemma_append_deep_view, lemma_deep_view_index, lemma_empty_deep_view, lemma_push_deep_view,
    lemma_take_next,
};

verus! {

/// Joins the strings of `parts`, with `separator` between neighbours, by
/// `itertools::Itertools::join`: the first item, then for each further item
/// the separator and the item.
#[verifier::external_body]
fn join_with(parts: &Vec<String>, separator: &str) -> (out: String)
    ensures
        out@ == join(parts.deep_view(), separator@),
{
    itertools::Itertools::join(&mut parts.iter(), separator)
}

/// A parameter of a payload type as it stands in an `fmtp` attribute:
/// `name=value`, or the value alone where the name is empty.
pub open spec fn parameter_text(parameter: ParameterView) -> Seq<char> {
    if parameter.name.len() > 0 {
        parameter.name + "="@ + parameter.value
    } else {
        parameter.value
    }
}

/// The parameters of a payload type as they stand in an `fmtp` attribute,
/// parted by `;`.
pub open spec fn parameters_text(parameters: Seq<ParameterView>) -> Seq<char> {
    join(Seq::new(parameters.len(), |i: int| parameter_text(parameters[i])), ";"@)
}

/// The value of an `rtpmap` attribute: `<id> <name>/<clock rate>`, and
/// `/<channels>` after it where there are two channels or more.
pub open spec fn rtpmap_text(id: u8, name: Seq<char>, clockrate: u32, channels: u8) -> Seq<char> {
    let codec = decimal(id as nat) + " "@ + name + "/"@ + decimal(clockrate as nat);
    if channels >= 2 {
        codec + "/"@ + decimal(channels as nat)
    } else {
        codec
    }
}

/// The value of an `rtcp-fb` attribute: `<id> <type>[ <subtype>]`.
pub open spec fn feedback_text(id: u8, feedback: RtcpFbView) -> Seq<char> {
    let head = decimal(id as nat) + " "@ + feedback.type_;
    match feedback.subtype {
        Some(subtype) => head + " "@ + subtype,
        None => head,
    }
}

/// The attributes that a payload type gives: its `rtpmap`, its `fmtp` where
/// it has parameters that make a non-empty text, and an `rtcp-fb` for each of
/// its feedback entries. `None` where it lacks its name or its clock rate.
pub open spec fn codec_attributes(payload_type: PayloadTypeView) -> Option<Seq<AttributeView>> {
    match (payload_type.name, payload_type.clockrate) {
        (Some(name), Some(clockrate)) => {
            let rtpmap = seq![
                valued(
                    "rtpmap"@,
                    rtpmap_text(payload_type.id, name, clockrate, payload_type.channels),
                ),
            ];
            let parameters = parameters_text(payload_type.parameters);
            let fmtp = if parameters.len() > 0 {
                seq![valued("fmtp"@, decimal(payload_type.id as nat) + " "@ + parameters)]
            } else {
                Seq::empty()
            };
            let feedback = Seq::new(
                payload_type.rtcp_fbs.len(),
                |i: int|
                    valued("rtcp-fb"@, feedback_text(payload_type.id, payload_type.rtcp_fbs[i])),
            );
            Some(rtpmap + fmtp + feedback)
        },
        _ => None,
    }
}

/// Builds the text of the parameters of a payload type.
pub fn format_parameters(parameters: &Vec<Parameter>) -> (out: String)
    ensures
        out@ == parameters_text(parameters.deep_view()),
{
    let mut parts: Vec<String> = Vec::new();
    let mut i: usize = 0;
    let ghost all = parameters.deep_view();
    while i < parameters.len()
        invariant
            i <= parameters.len(),
            all == parameters.deep_view(),
            parts.deep_view() =~= Seq::new(i as nat, |k: int| parameter_text(all[k])),
        decreases parameters.len() - i,
    {
        let parameter = &parameters[i];
        let mut part = String::new();
        if !parameter.name.as_str().is_empty() {
            part.append(parameter.name.as_str());
            part.append("=");
        }
        part.append(parameter.value.as_str());
        proof {
            lemma_deep_view_index(*parameters, i as int);
            assert(part@ =~= parameter_text(all[i as int]));
        }
        let ghost before = parts;
        let ghost pushed = part;
        parts.push(part);
        proof {
            lemma_push_deep_view(before, parts, pushed);
        }
        i += 1;
    }
    assert(parts.deep_view() =~= Seq::new(all.len(), |k: int| parameter_text(all[k])));
    join_with(&parts, ";")
}

/// Builds the attributes that a payload type gives.
pub fn format_codec(payload_type: &PayloadType) -> (out: Option<Vec<Attribute>>)
    ensures
        out.deep_view() == codec_attributes(payload_type@),
{
    let (name, clockrate) = match (&payload_type.name, payload_type.clockrate) {
        (Some(name), Some(clockrate)) => (name, clockrate),
        _ => {
            return None;
        },
    };
    let id = decimal_string(payload_type.id as u64);
    let mut rtpmap = id.clone();
    rtpmap.append(" ");
    rtpmap.append(name.as_str());
    rtpmap.append("/");
    rtpmap.append(decimal_string(clockrate as u64).as_str());
    if payload_type.channels >= 2 {
        rtpmap.append("/");
        rtpmap.append(decimal_string(payload_type.channels as u64).as_str());
    }
    let mut out: Vec<Attribute> = Vec::new();
    let ghost none = out;
    let first = Attribute::with_value("rtpmap", rtpmap);
    out.push(first);
    proof {
        lemma_empty_deep_view(none);
        lemma_push_deep_view(none, out, first);
    }
    let parameters = format_parameters(&payload_type.parameters);
    if !parameters.as_str().is_empty() {
        let mut fmtp = id.clone();
        fmtp.append(" ");
        fmtp.append(parameters.as_str());
        let ghost before = out;
        let second = Attribute::with_value("fmtp", fmtp);
        out.push(second);
        proof {
            lemma_push_deep_view(before, out, second);
        }
    }
    let ghost start = out.deep_view();
    let ghost all = payload_type.rtcp_fbs.deep_view();
    let ghost wanted = Seq::new(
        all.len(),
        |i: int| valued("rtcp-fb"@, feedback_text(payload_type.id, all[i])),
    );
    let mut i: usize = 0;
    assert(start + wanted.take(0) =~= start);
    while i < payload_type.rtcp_fbs.len()
        invariant
            i <= payload_type.rtcp_fbs.len(),
            all == payload_type.rtcp_fbs.deep_view(),
            id@ == decimal(payload_type.id as nat),
            wanted == Seq::new(
                all.len(),
                |i: int| valued("rtcp-fb"@, feedback_text(payload_type.id, all[i])),
            ),
            out.deep_view() == start + wanted.take(i as int),
        decreases payload_type.rtcp_fbs.len() - i,
    {
        let feedback = &payload_type.rtcp_fbs[i];
        let mut text = id.clone();
        text.append(" ");
        text.append(feedback.type_.as_str());
        match &feedback.subtype {
            Some(subtype) => {
                text.append(" ");
                text.append(subtype.as_str());
            },
            None => {},
        }
        let ghost before = out;
        let line = Attribute::with_value("rtcp-fb", text);
        out.push(line);
        proof {
            lemma_deep_view_index(payload_type.rtcp_fbs, i as int);
            lemma_push_deep_view(before, out, line);
            lemma_take_next(wanted, i as int);
            assert((start + wanted.take(i as int)).push(wanted[i as int]) =~= start + wanted.take(
                i + 1,
            ));
        }
        i += 1;
    }
    assert(wanted.take(all.len() as int) == wanted);
    Some(out)
}

/// The attributes that the payload types give, one after the other.
pub open spec fn codec_lines(payload_types: Seq<PayloadTypeView>) -> Seq<AttributeView>
    decreases payload_types.len(),
{
    if payload_types.len() == 0 {
        Seq::empty()
    } else {
        let before = codec_lines(payload_types.drop_last());
        match codec_attributes(payload_types.last()) {
            Some(lines) => before + lines,
            None => before,
        }
    }
}

/// Whether each of the payload types has its name and its clock rate.
pub open spec fn codecs_complete(payload_types: Seq<PayloadTypeView>) -> bool {
    forall|i: int|
        0 <= i < payload_types.len() ==> codec_attributes(#[trigger] payload_types[i]) is Some
}

/// The formats of an `m=` line: the ids of the payload types.
pub open spec fn formats_of(payload_types: Seq<PayloadTypeView>) -> Seq<Seq<char>> {
    Seq::new(payload_types.len(), |i: int| decimal(payload_types[i].id as nat))
}

/// Builds the attributes that the payload types give; `None` where one of
/// them lacks its name or its clock rate.
pub fn format_codecs(payload_types: &Vec<PayloadType>) -> (out: Option<Vec<Attribute>>)
    ensures
        out is Some == codecs_complete(payload_types.deep_view()),
        out is Some ==> out->0.deep_view() == codec_lines(payload_types.deep_view()),
{
    let mut out: Vec<Attribute> = Vec::new();
    let mut i: usize = 0;
    let ghost all = payload_types.deep_view();
    proof {
        lemma_empty_deep_view(out);
    }
    while i < payload_types.len()
        invariant
            i <= payload_types.len(),
            all == payload_types.deep_view(),
            forall|k: int| 0 <= k < i ==> codec_attributes(#[trigger] all[k]) is Some,
            out.deep_view() == codec_lines(all.take(i as int)),
        decreases payload_types.len() - i,
    {
        proof {
            lemma_deep_view_index(*payload_types, i as int);
            assert(all.take(i + 1).drop_last() == all.take(i as int));
        }
        match format_codec(&payload_types[i]) {
            Some(lines) => {
                let mut lines = lines;
                let ghost before = out;
                let ghost added = lines;
                out.append(&mut lines);
                proof {
                    lemma_append_deep_view(before, added, out);
                }
            },
            None => {
                return None;
            },
        }
        i += 1;
    }
    assert(all.take(payload_types.len() as int) == all);
    Some(out)
}

/// Builds the formats of an `m=` line.
pub fn format_ids(payload_types: &Vec<PayloadType>) -> (out: Vec<String>)
    ensures
        out.deep_view() == formats_of(payload_types.deep_view()),
{
    let mut out: Vec<String> = Vec::new();
    let mut i: usize = 0;
    let ghost all = payload_types.deep_view();
    while i < payload_types.len()
        invariant
            i <= payload_types.len(),
            all == payload_types.deep_view(),
            out.deep_view() =~= Seq::new(i as nat, |k: int| decimal(all[k].id as nat)),
        decreases payload_types.len() - i,
    {
        let id = decimal_string(payload_types[i].id as u64);
        let ghost before = out;
        let ghost pushed = id;
        out.push(id);
        proof {
            lemma_deep_view_index(*payload_types, i as int);
            lemma_push_deep_view(before, out, pushed);
        }
        i += 1;
    }
    assert(out.deep_view() =~= formats_of(all));
    out
}

/// What stands between the type of a candidate and its generation: nothing
/// for a host candidate; for the others ` raddr <address>` where there is a
/// related address, then ` rport <port>` where there is a related port.
pub open spec fn related_text(candidate: CandidateView) -> Seq<char> {
    if candidate.type_ == CandidateType::Host {
        Seq::empty()
    } else {
        let address = match candidate.rel_addr {
            Some(address) => " raddr "@ + address,
            None => Seq::empty(),
        };
        let port = match candidate.rel_port {
            Some(port) => " rport "@ + decimal(port as nat),
            None => Seq::empty(),
        };
        address + port
    }
}

/// What every candidate line begins with:
/// `<foundation> <component> <protocol> <priority> <ip> <port> typ <type>`.
pub open spec fn candidate_head(candidate: CandidateView) -> Seq<char> {
    candidate.foundation + " "@ + decimal(candidate.component as nat) + " "@ + candidate.protocol
        + " "@ + decimal(candidate.priority as nat) + " "@ + candidate.ip + " "@ + decimal(
        candidate.port as nat,
    ) + " typ "@ + candidate_type_text(candidate.type_)
}

/// What every candidate line ends with: ` generation <n>`.
pub open spec fn generation_text(candidate: CandidateView) -> Seq<char> {
    " generation "@ + decimal(candidate.generation as nat)
}

/// The value of a `candidate` attribute.
pub open spec fn candidate_text(candidate: CandidateView) -> Seq<char> {
    candidate_head(candidate) + related_text(candidate) + generation_text(candidate)
}

/// Builds the value of a `candidate` attribute.
pub fn format_candidate(candidate: &Candidate) -> (out: String)
    ensures
        out@ == candidate_text(candidate@),
{
    let mut out = candidate.foundation.clone();
    out.append(" ");
    out.append(decimal_string(candidate.component as u64).as_str());
    out.append(" ");
    out.append(candidate.protocol.as_str());
    out.append(" ");
    out.append(decimal_string(candidate.priority as u64).as_str());
    out.append(" ");
    out.append(candidate.ip.as_str());
    out.append(" ");
    out.append(decimal_string(candidate.port as u64).as_str());
    out.append(" typ ");
    out.append(candidate_type_name(candidate.type_));
    assert(out@ == candidate_head(candidate@));
    let mut related = String::new();
    match candidate.type_ {
        CandidateType::Host => {},
        _ => {
            match &candidate.rel_addr {
                Some(address) => {
                    related.append(" raddr ");
                    related.append(address.as_str());
                },
                None => {},
            }
            match candidate.rel_port {
                Some(port) => {
                    related.append(" rport ");
                    related.append(decimal_string(port as u64).as_str());
                },
                None => {},
            }
        },
    }
    assert(related@ =~= related_text(candidate@));
    out.append(related.as_str());
    out.append(" generation ");
    out.append(decimal_string(candidate.generation as u64).as_str());
    assert(out@ =~= candidate_text(candidate@));
    out
}

/// The value of a `fingerprint` attribute: the name of the hash function,
/// and after a space the bytes as colon-separated hexadecimal digit pairs.
/// `None` where the hash function has no name in this attribute.
pub open spec fn fingerprint_text(fingerprint: FingerprintView) -> Option<Seq<char>> {
    match hash_name(fingerprint.hash) {
        Some(name) => Some(name + " "@ + colon_hex(fingerprint.value)),
        None => None,
    }
}

/// The credentials of a transport as attributes, where it has both.
pub open spec fn credential_lines(transport: TransportView) -> Seq<AttributeView> {
    match (transport.ufrag, transport.pwd) {
        (Some(ufrag), Some(pwd)) => seq![valued("ice-ufrag"@, ufrag), valued("ice-pwd"@, pwd)],
        _ => Seq::empty(),
    }
}

/// The fingerprint of a transport as an attribute, where it has one that
/// can be written.
pub open spec fn fingerprint_lines(transport: TransportView) -> Seq<AttributeView> {
    match transport.fingerprint {
        Some(fingerprint) => match fingerprint_text(fingerprint) {
            Some(text) => seq![valued("fingerprint"@, text)],
            None => Seq::empty(),
        },
        None => Seq::empty(),
    }
}

/// The candidates of a transport as attributes.
pub open spec fn candidate_lines(transport: TransportView) -> Seq<AttributeView> {
    Seq::new(
        transport.candidates.len(),
        |i: int| valued("candidate"@, candidate_text(transport.candidates[i])),
    )
}

/// The attributes that a transport gives to each block of its content: its
/// credentials, its fingerprint and its candidates.
pub open spec fn transport_lines(transport: Option<TransportView>) -> Seq<AttributeView> {
    match transport {
        Some(transport) => credential_lines(transport) + fingerprint_lines(transport)
            + candidate_lines(transport),
        None => Seq::empty(),
    }
}

/// Whether the fingerprint of a transport, if it has one, can be written.
pub open spec fn fingerprint_supported(transport: Option<TransportView>) -> bool {
    match transport {
        Some(transport) => match transport.fingerprint {
            Some(fingerprint) => fingerprint_text(fingerprint) is Some,
            None => true,
        },
        None => true,
    }
}

/// The `setup` attribute that a transport gives, where its fingerprint names a role.
pub open spec fn setup_lines(transport: Option<TransportView>) -> Seq<AttributeView> {
    match transport {
        Some(transport) => match transport.fingerprint {
            Some(fingerprint) => match fingerprint.setup {
                Some(setup) => seq![valued("setup"@, setup_text(setup))],
                None => Seq::empty(),
            },
            None => Seq::empty(),
        },
        None => Seq::empty(),
    }
}

/// Builds the `setup` attribute of a transport.
pub fn format_setup(transport: &Option<Transport>) -> (out: Vec<Attribute>)
    ensures
        out.deep_view() == setup_lines(transport.deep_view()),
{
    let mut out: Vec<Attribute> = Vec::new();
    proof {
        lemma_empty_deep_view(out);
    }
    match transport {
        Some(transport) => match &transport.fingerprint {
            Some(fingerprint) => match fingerprint.setup {
                Some(setup) => {
                    let ghost before = out;
                    let line = Attribute::with_value("setup", String::from_str(setup_name(setup)));
                    out.push(line);
                    proof {
                        lemma_push_deep_view(before, out, line);
                        assert(out.deep_view() =~= setup_lines(Some(transport@)));
                    }
                },
                None => {},
            },
            None => {},
        },
        None => {},
    }
    out
}

/// Builds the value of a `fingerprint` attribute.
pub fn format_fingerprint(fingerprint: &Fingerprint) -> (out: Option<String>)
    ensures
        out.deep_view() == fingerprint_text(fingerprint@),
{
    match hash_to_name(&fingerprint.hash) {
        Some(name) => {
            let mut out = name;
            out.append(" ");
            out.append(join_with(&hex_pair_strings(&fingerprint.value), ":").as_str());
            Some(out)
        },
        None => None,
    }
}

/// Builds the attributes that a transport gives to each block of its
/// content; `None` where its fingerprint cannot be written.
pub fn format_transport(transport: &Option<Transport>) -> (out: Option<Vec<Attribute>>)
    ensures
        out is Some == fingerprint_supported(transport.deep_view()),
        out is Some ==> out->0.deep_view() == transport_lines(transport.deep_view()),
{
    let mut out: Vec<Attribute> = Vec::new();
    proof {
        lemma_empty_deep_view(out);
    }
    let transport = match transport {
        Some(transport) => transport,
        None => {
            return Some(out);
        },
    };
    match (&transport.ufrag, &transport.pwd) {
        (Some(ufrag), Some(pwd)) => {
            let ghost none = out;
            let first = Attribute::with_value("ice-ufrag", ufrag.clone());
            out.push(first);
            let ghost one = out;
            let second = Attribute::with_value("ice-pwd", pwd.clone());
            out.push(second);
            proof {
                lemma_push_deep_view(none, one, first);
                lemma_push_deep_view(one, out, second);
            }
        },
        _ => {},
    }
    assert(out.deep_view() =~= credential_lines(transport@));
    match &transport.fingerprint {
        Some(fingerprint) => match format_fingerprint(fingerprint) {
            Some(text) => {
                let ghost before = out;
                let line = Attribute::with_value("fingerprint", text);
                out.push(line);
                proof {
                    lemma_push_deep_view(before, out, line);
                }
            },
            None => {
                return None;
            },
        },
        None => {},
    }
    assert(out.deep_view() =~= credential_lines(transport@) + fingerprint_lines(transport@));
    let ghost start = out.deep_view();
    let ghost all = transport.candidates.deep_view();
    let ghost wanted = candidate_lines(transport@);
    let mut i: usize = 0;
    assert(start + wanted.take(0) =~= start);
    while i < transport.candidates.len()
        invariant
            i <= transport.candidates.len(),
            all == transport.candidates.deep_view(),
            wanted == candidate_lines(transport@),
            out.deep_view() == start + wanted.take(i as int),
        decreases transport.candidates.len() - i,
    {
        let ghost before = out;
        let line = Attribute::with_value("candidate", format_candidate(&transport.candidates[i]));
        out.push(line);
        proof {
            lemma_deep_view_index(transport.candidates, i as int);
            lemma_push_deep_view(before, out, line);
            lemma_take_next(wanted, i as int);
            assert((start + wanted.take(i as int)).push(wanted[i as int]) =~= start + wanted.take(
                i + 1,
            ));
        }
        i += 1;
    }
    assert(wanted.take(all.len() as int) == wanted);
    Some(out)
}

/// The value of the first of `parameters` that is named `msid` and has a value.
pub open spec fn msid_of_parameters(parameters: Seq<SourceParameterView>) -> Option<Seq<char>>
    decreases parameters.len(),
{
    if parameters.len() == 0 {
        None
    } else if parameters[0].name == "msid"@ && parameters[0].value is Some {
        parameters[0].value
    } else {
        msid_of_parameters(parameters.skip(1))
    }
}

/// The `msid` of a group: that of the first of its sources that has one.
pub open spec fn msid_of(sources: Seq<SourceView>) -> Option<Seq<char>>
    decreases sources.len(),
{
    if sources.len() == 0 {
        None
    } else {
        match msid_of_parameters(sources[0].parameters) {
            Some(msid) => Some(msid),
            None => msid_of(sources.skip(1)),
        }
    }
}

/// The value of an `ssrc` attribute: `<ssrc> <name>[:<value>]`.
pub open spec fn ssrc_text(id: u32, parameter: SourceParameterView) -> Seq<char> {
    let head = decimal(id as nat) + " "@ + parameter.name;
    match parameter.value {
        Some(value) => head + ":"@ + value,
        None => head,
    }
}

/// An `ssrc` attribute for each parameter of `source`.
pub open spec fn source_lines(source: SourceView) -> Seq<AttributeView> {
    Seq::new(
        source.parameters.len(),
        |i: int| valued("ssrc"@, ssrc_text(source.id, source.parameters[i])),
    )
}

/// An `ssrc` attribute for each parameter of each of `sources`.
pub open spec fn ssrc_lines(sources: Seq<SourceView>) -> Seq<AttributeView>
    decreases sources.len(),
{
    if sources.len() == 0 {
        Seq::empty()
    } else {
        ssrc_lines(sources.drop_last()) + source_lines(sources.last())
    }
}

/// The value of an `ssrc-group` attribute: the semantics, a space, and the
/// SSRCs of the members parted by spaces.
pub open spec fn ssrc_group_text(group: SourceGroupView) -> Seq<char> {
    semantics_text(group.semantics) + " "@ + join(
        Seq::new(group.sources.len(), |i: int| decimal(group.sources[i] as nat)),
        " "@,
    )
}

/// The direction of a block: `sendrecv` where the first source of its group
/// is owned by `jvb`, else `sendonly`.
pub open spec fn direction_of(sources: Seq<SourceView>) -> Seq<char> {
    if sources.len() > 0 && sources[0].owner == Some("jvb"@) {
        "sendrecv"@
    } else {
        "sendonly"@
    }
}

/// The attributes by which a block names its source group: the `msid` where
/// the group has one, the direction, an `ssrc` for each parameter of each
/// source, and the `ssrc-group` where the group was declared.
pub open spec fn identity_attributes(
    group: Option<SourceGroupView>,
    sources: Seq<SourceView>,
) -> Seq<AttributeView> {
    let msid = match msid_of(sources) {
        Some(msid) => seq![valued("msid"@, msid)],
        None => Seq::empty(),
    };
    let declared = match group {
        Some(group) => seq![valued("ssrc-group"@, ssrc_group_text(group))],
        None => Seq::empty(),
    };
    msid + seq![property(direction_of(sources))] + ssrc_lines(sources) + declared
}

/// Finds the value of the first of `parameters` that is named `msid` and has one.
pub fn msid_for_parameters<'a>(parameters: &'a Vec<SourceParameter>) -> (out: Option<&'a String>)
    ensures
        out.deep_view() == msid_of_parameters(parameters.deep_view()),
{
    let mut i: usize = 0;
    let ghost all = parameters.deep_view();
    proof {
        assert(all.skip(0) == all);
    }
    while i < parameters.len()
        invariant
            i <= parameters.len(),
            all == parameters.deep_view(),
            msid_of_parameters(all) == msid_of_parameters(all.skip(i as int)),
        decreases parameters.len() - i,
    {
        proof {
            lemma_deep_view_index(*parameters, i as int);
            assert(all.skip(i as int).skip(1) == all.skip(i + 1));
        }
        if str_eq(parameters[i].name.as_str(), "msid") {
            match &parameters[i].value {
                Some(value) => {
                    return Some(value);
                },
                None => {},
            }
        }
        i += 1;
    }
    None
}

/// Finds the `msid` of a group.
pub fn msid_for_sources<'a>(sources: &Vec<&'a Source>) -> (out: Option<&'a String>)
    ensures
        out.deep_view() == msid_of(sources.deep_view()),
{
    let mut i: usize = 0;
    let ghost all = sources.deep_view();
    proof {
        assert(all.skip(0) == all);
    }
    while i < sources.len()
        invariant
            i <= sources.len(),
            all == sources.deep_view(),
            msid_of(all) == msid_of(all.skip(i as int)),
        decreases sources.len() - i,
    {
        proof {
            lemma_deep_view_index(*sources, i as int);
            assert(all.skip(i as int).skip(1) == all.skip(i + 1));
        }
        let source: &'a Source = sources[i];
        match msid_for_parameters(&source.parameters) {
            Some(msid) => {
                return Some(msid);
            },
            None => {},
        }
        i += 1;
    }
    None
}

/// Builds the value of an `ssrc-group` attribute.
pub fn format_ssrc_group(group: &SourceGroup) -> (out: String)
    ensures
        out@ == ssrc_group_text(group@),
{
    let mut ids: Vec<String> = Vec::new();
    let mut i: usize = 0;
    while i < group.sources.len()
        invariant
            i <= group.sources.len(),
            ids.deep_view() =~= Seq::new(i as nat, |k: int| decimal(group.sources@[k] as nat)),
        decreases group.sources.len() - i,
    {
        let id = decimal_string(group.sources[i] as u64);
        let ghost before = ids;
        let ghost pushed = id;
        ids.push(id);
        proof {
            lemma_push_deep_view(before, ids, pushed);
        }
        i += 1;
    }
    assert(ids.deep_view() =~= Seq::new(
        group@.sources.len(),
        |k: int| decimal(group@.sources[k] as nat),
    ));
    let mut out = String::from_str(semantics_name(group.semantics));
    out.append(" ");
    out.append(join_with(&ids, " ").as_str());
    out
}

/// Appends an `ssrc` attribute for each parameter of `source`.
pub fn push_source_lines(attributes: &mut Vec<Attribute>, source: &Source)
    ensures
        final(attributes).deep_view() == old(attributes).deep_view() + source_lines(source@),
{
    let ghost start = attributes.deep_view();
    let ghost all = source.parameters.deep_view();
    let ghost wanted = source_lines(source@);
    let id = decimal_string(source.id as u64);
    let mut i: usize = 0;
    assert(start + wanted.take(0) =~= start);
    while i < source.parameters.len()
        invariant
            i <= source.parameters.len(),
            all == source.parameters.deep_view(),
            wanted == source_lines(source@),
            id@ == decimal(source.id as nat),
            attributes.deep_view() == start + wanted.take(i as int),
        decreases source.parameters.len() - i,
    {
        let parameter = &source.parameters[i];
        let mut text = id.clone();
        text.append(" ");
        text.append(parameter.name.as_str());
        match &parameter.value {
            Some(value) => {
                text.append(":");
                text.append(value.as_str());
            },
            None => {},
        }
        let ghost before = *attributes;
        let line = Attribute::with_value("ssrc", text);
        attributes.push(line);
        proof {
            lemma_deep_view_index(source.parameters, i as int);
            lemma_push_deep_view(before, *attributes, line);
            lemma_take_next(wanted, i as int);
            assert((start + wanted.take(i as int)).push(wanted[i as int]) =~= start + wanted.take(
                i + 1,
            ));
        }
        i += 1;
    }
    assert(wanted.take(all.len() as int) == wanted);
}

/// Appends to the attributes of `md` those by which a block names its
/// source group; see [`identity_attributes`].
pub fn populate_media_description_from_sources(
    md: MediaDescription,
    sources: &Vec<&Source>,
    maybe_group: Option<&SourceGroup>,
) -> (out: MediaDescription)
    ensures
        out@ == (MediaDescriptionView {
            attributes: md@.attributes + identity_attributes(
                maybe_group.deep_view(),
                sources.deep_view(),
            ),
            ..md@
        }),
{
    let MediaDescription {
        media_name,
        media_title,
        connection_information,
        bandwidth,
        encryption_key,
        attributes,
    } = md;
    let mut attributes = attributes;
    let ghost start = attributes.deep_view();
    let ghost all = sources.deep_view();
    match msid_for_sources(sources) {
        Some(msid) => {
            let ghost before = attributes;
            let line = Attribute::with_value("msid", msid.clone());
            attributes.push(line);
            proof {
                lemma_push_deep_view(before, attributes, line);
            }
        },
        None => {},
    }
    let direction = if sources.len() > 0 {
        proof {
            lemma_deep_view_index(*sources, 0);
        }
        match &sources[0].owner {
            Some(owner) => if str_eq(owner.as_str(), "jvb") {
                "sendrecv"
            } else {
                "sendonly"
            },
            None => "sendonly",
        }
    } else {
        "sendonly"
    };
    let ghost before = attributes;
    let line = Attribute::property(direction);
    attributes.push(line);
    proof {
        lemma_push_deep_view(before, attributes, line);
    }
    let ghost named = attributes.deep_view();
    let mut i: usize = 0;
    proof {
        assert(named + ssrc_lines(all.take(0)) =~= named);
    }
    while i < sources.len()
        invariant
            i <= sources.len(),
            all == sources.deep_view(),
            attributes.deep_view() == named + ssrc_lines(all.take(i as int)),
        decreases sources.len() - i,
    {
        let ghost before = attributes.deep_view();
        push_source_lines(&mut attributes, sources[i]);
        proof {
            lemma_deep_view_index(*sources, i as int);
            assert(all.take(i + 1).drop_last() == all.take(i as int));
            assert(before + source_lines(all[i as int]) =~= named + ssrc_lines(all.take(i + 1)));
        }
        i += 1;
    }
    proof {
        assert(all.take(sources.len() as int) == all);
    }
    match maybe_group {
        Some(group) => {
            let ghost before = attributes;
            let line = Attribute::with_value("ssrc-group", format_ssrc_group(group));
            attributes.push(line);
            proof {
                lemma_push_deep_view(before, attributes, line);
            }
        },
        None => {},
    }
    assert(attributes.deep_view() =~= start + identity_attributes(
        maybe_group.deep_view(),
        all,
    ));
    MediaDescription {
        media_name,
        media_title,
        connection_information,
        bandwidth,
        encryption_key,
        attributes,
    }
}

/// The text that `url::Url` writes for the URI that it reads from `uri`;
/// `None` where it reads none.
pub uninterp spec fn uri_text(uri: Seq<char>) -> Option<Seq<char>>;

/// The value of the `extmap` attribute of a header extension: its id, a
/// space, and its URI as it stands. `None` where `url::Url` cannot read the
/// URI.
pub open spec fn extmap_text(hdrext: RtpHdrextView) -> Option<Seq<char>> {
    match uri_text(hdrext.uri) {
        Some(_) => Some(decimal(hdrext.id as nat) + " "@ + hdrext.uri),
        None => None,
    }
}

/// Reads `uri` with `url::Url`'s `FromStr` and, where that succeeds, has
/// `sdp::extmap::ExtMap::convert` write the `extmap` attribute of an
/// extension with that id and URI, without direction and further
/// attributes, whose value is handed back: the id in decimal, a space, and
/// the URI as `url::Url` writes it.
#[verifier::external_body]
fn extmap_value(id: u16, uri: &str) -> (out: Option<String>)
    ensures
        out.deep_view() == match uri_text(uri@) {
            Some(text) => Some(decimal(id as nat) + " "@ + text),
            None => None,
        },
{
    let extmap = ::sdp::extmap::ExtMap {
        value: id as isize,
        direction: ::sdp::direction::Direction::Unspecified,
        uri: Some(uri.parse().ok()?),
        ext_attr: None,
    };
    extmap.convert().value
}

/// Whether the URI of each header extension can be read.
pub open spec fn extmaps_sound(hdrexts: Seq<RtpHdrextView>) -> bool {
    forall|i: int| 0 <= i < hdrexts.len() ==> extmap_text(#[trigger] hdrexts[i]) is Some
}

/// The `extmap` attributes of header extensions.
pub open spec fn extmap_lines(hdrexts: Seq<RtpHdrextView>) -> Seq<AttributeView> {
    Seq::new(hdrexts.len(), |i: int| valued("extmap"@, extmap_text(hdrexts[i])->0))
}

/// Builds the `extmap` attributes of header extensions, each with its URI
/// as it stands; `None` where `url::Url` cannot read the URI of one of them.
pub fn format_extmaps(hdrexts: &Vec<RtpHdrext>) -> (out: Option<Vec<Attribute>>)
    ensures
        out is Some == extmaps_sound(hdrexts.deep_view()),
        out is Some ==> out->0.deep_view() == extmap_lines(hdrexts.deep_view()),
{
    let mut out: Vec<Attribute> = Vec::new();
    let mut i: usize = 0;
    let ghost all = hdrexts.deep_view();
    while i < hdrexts.len()
        invariant
            i <= hdrexts.len(),
            all == hdrexts.deep_view(),
            forall|k: int| 0 <= k < i ==> extmap_text(#[trigger] all[k]) is Some,
            out.deep_view() =~= Seq::new(
                i as nat,
                |k: int| valued("extmap"@, extmap_text(all[k])->0),
            ),
        decreases hdrexts.len() - i,
    {
        proof {
            lemma_deep_view_index(*hdrexts, i as int);
        }
        match extmap_value(hdrexts[i].id, hdrexts[i].uri.as_str()) {
            Some(_) => {
                let mut text = decimal_string(hdrexts[i].id as u64);
                text.append(" ");
                text.append(hdrexts[i].uri.as_str());
                let ghost before = out;
                let line = Attribute::with_value("extmap", text);
                out.push(line);
                proof {
                    lemma_push_deep_view(before, out, line);
                }
            },
            None => {
                return None;
            },
        }
        i += 1;
    }
    assert(out.deep_view() =~= extmap_lines(all));
    Some(out)
}

/// What the blocks of a content share before the attributes that name the
/// source group: the codec attributes, one `rtcp` attribute, the header
/// extensions and the DTLS role.
pub open spec fn leading_lines(
    description: RtpDescriptionView,
    transport: Option<TransportView>,
    extmaps: Seq<AttributeView>,
) -> Seq<AttributeView> {
    codec_lines(description.payload_types) + seq![valued("rtcp"@, "1 IN IP4 0.0.0.0"@)] + extmaps
        + setup_lines(transport)
}

/// What the blocks of a content share after the attributes that name the
/// source group: the transport, and `rtcp-mux` where the description has it.
pub open spec fn trailing_lines(
    description: RtpDescriptionView,
    transport: Option<TransportView>,
) -> Seq<AttributeView> {
    if description.rtcp_mux {
        transport_lines(transport).push(property("rtcp-mux"@))
    } else {
        transport_lines(transport)
    }
}

/// The attributes of the block of one source group.
pub open spec fn block_attributes(
    description: RtpDescriptionView,
    transport: Option<TransportView>,
    extmaps: Seq<AttributeView>,
    entry: (Option<SourceGroupView>, Seq<SourceView>),
    mid: nat,
) -> Seq<AttributeView> {
    leading_lines(description, transport, extmaps) + seq![valued("mid"@, decimal(mid))]
        + identity_attributes(entry.0, entry.1) + trailing_lines(description, transport)
}

/// A media block of the given media type with the given formats and
/// attributes: on port 9, over `UDP/TLS/RTP/SAVPF`, at `IN IP4 0.0.0.0`.
pub open spec fn jsep_block(
    media: Seq<char>,
    formats: Seq<Seq<char>>,
    attributes: Seq<AttributeView>,
) -> MediaDescriptionView {
    MediaDescriptionView {
        media_name: MediaNameView {
            media,
            port: RangedPort { value: 9, range: None },
            protos: seq!["UDP"@, "TLS"@, "RTP"@, "SAVPF"@],
            formats,
        },
        media_title: None,
        connection_information: Some(
            ConnectionInformationView {
                network_type: "IN"@,
                address_type: "IP4"@,
                address: Some(AddressView { address: "0.0.0.0"@, ttl: None, range: None }),
            },
        ),
        bandwidth: Seq::empty(),
        encryption_key: None,
        attributes,
    }
}

/// The block of one source group.
pub open spec fn media_block(
    description: RtpDescriptionView,
    transport: Option<TransportView>,
    extmaps: Seq<AttributeView>,
    entry: (Option<SourceGroupView>, Seq<SourceView>),
    mid: nat,
) -> MediaDescriptionView {
    jsep_block(
        description.media,
        formats_of(description.payload_types),
        block_attributes(description, transport, extmaps, entry, mid),
    )
}

/// Whether a content can be written, given that its header extensions can:
/// it has no description, or each payload type has its name and clock rate
/// and the fingerprint of the transport names a hash function that has a
/// name in SDP.
pub open spec fn content_sound(content: ContentView) -> bool {
    match content.description {
        Some(description) => codecs_complete(description.payload_types) && fingerprint_supported(
            content.transport,
        ),
        None => true,
    }
}

/// The blocks of a content, one for each of its source groups, with `mid`s
/// counting up from `first_mid`. None for a content without a description.
pub open spec fn content_blocks(
    content: ContentView,
    extmaps: Seq<AttributeView>,
    first_mid: nat,
) -> Seq<MediaDescriptionView> {
    match content.description {
        Some(description) => {
            let groups = grouped(description);
            Seq::new(
                groups.len(),
                |k: int|
                    media_block(
                        description,
                        content.transport,
                        extmaps,
                        groups[k],
                        first_mid + k as nat,
                    ),
            )
        },
        None => Seq::empty(),
    }
}

/// Builds a media block in its bare form.
pub fn new_jsep_block(media: String, formats: Vec<String>, attributes: Vec<Attribute>) -> (out:
    MediaDescription)
    ensures
        out@ == jsep_block(media@, formats.deep_view(), attributes.deep_view()),
{
    let mut protos: Vec<String> = Vec::new();
    let ghost p0 = protos;
    let udp = String::from_str("UDP");
    protos.push(udp);
    let ghost p1 = protos;
    let tls = String::from_str("TLS");
    protos.push(tls);
    let ghost p2 = protos;
    let rtp = String::from_str("RTP");
    protos.push(rtp);
    let ghost p3 = protos;
    let savpf = String::from_str("SAVPF");
    protos.push(savpf);
    proof {
        lemma_empty_deep_view(p0);
        lemma_push_deep_view(p0, p1, udp);
        lemma_push_deep_view(p1, p2, tls);
        lemma_push_deep_view(p2, p3, rtp);
        lemma_push_deep_view(p3, protos, savpf);
        assert(protos.deep_view() =~= seq!["UDP"@, "TLS"@, "RTP"@, "SAVPF"@]);
    }
    let out = MediaDescription {
        media_name: MediaName {
            media,
            port: RangedPort { value: 9, range: None },
            protos,
            formats,
        },
        media_title: None,
        connection_information: Some(
            ConnectionInformation {
                network_type: String::from_str("IN"),
                address_type: String::from_str("IP4"),
                address: Some(
                    Address { address: String::from_str("0.0.0.0"), ttl: None, range: None },
                ),
            },
        ),
        bandwidth: Vec::new(),
        encryption_key: None,
        attributes,
    };
    proof {
        lemma_empty_deep_view(out.bandwidth);
    }
    out
}

/// Appends the blocks of `content` to `blocks`, with `mid`s counting up from
/// the number of blocks that are there. `extmaps` are the `extmap`
/// attributes of the content's header extensions. Returns whether the
/// content could be written; `blocks` is of no use where it could not.
pub fn append_content_blocks(
    blocks: &mut Vec<MediaDescription>,
    content: &Content,
    extmaps: &Vec<Attribute>,
) -> (ok: bool)
    ensures
        ok == content_sound(content@),
        ok ==> final(blocks).deep_view() == old(blocks).deep_view() + content_blocks(
            content@,
            extmaps.deep_view(),
            old(blocks)@.len(),
        ),
{
    let description = match &content.description {
        Some(description) => description,
        None => {
            assert(old(blocks).deep_view() + content_blocks(
                content@,
                extmaps.deep_view(),
                old(blocks)@.len(),
            ) =~= old(blocks).deep_view());
            return true;
        },
    };
    let codecs = match format_codecs(&description.payload_types) {
        Some(codecs) => codecs,
        None => {
            return false;
        },
    };
    let transport = match format_transport(&content.transport) {
        Some(transport) => transport,
        None => {
            return false;
        },
    };
    let setup = format_setup(&content.transport);
    let groups = group_sources(description);
    let ghost start = blocks.deep_view();
    let ghost first_mid = blocks@.len();
    let ghost wanted = content_blocks(content@, extmaps.deep_view(), first_mid);
    let ghost entries = groups.deep_view();
    let mut k: usize = 0;
    proof {
        assert(start + wanted.take(0) =~= start);
    }
    while k < groups.len()
        invariant
            k <= groups.len(),
            content.description == Some(*description),
            entries == groups.deep_view(),
            entries == grouped(description@),
            codecs.deep_view() == codec_lines(description@.payload_types),
            transport.deep_view() == transport_lines(content.transport.deep_view()),
            setup.deep_view() == setup_lines(content.transport.deep_view()),
            wanted == content_blocks(content@, extmaps.deep_view(), first_mid),
            blocks@.len() == first_mid + k,
            blocks.deep_view() == start + wanted.take(k as int),
        decreases groups.len() - k,
    {
        let mut attributes = clone_attributes(&codecs);
        let ghost a0 = attributes;
        let rtcp = Attribute::with_value("rtcp", String::from_str("1 IN IP4 0.0.0.0"));
        attributes.push(rtcp);
        let ghost a1 = attributes;
        let mut more = clone_attributes(extmaps);
        let ghost m1 = more;
        attributes.append(&mut more);
        let ghost a2 = attributes;
        let mut more = clone_attributes(&setup);
        let ghost m2 = more;
        attributes.append(&mut more);
        let ghost a3 = attributes;
        let mid = Attribute::with_value("mid", decimal_string(blocks.len() as u64));
        attributes.push(mid);
        proof {
            lemma_push_deep_view(a0, a1, rtcp);
            lemma_append_deep_view(a1, m1, a2);
            lemma_append_deep_view(a2, m2, a3);
            lemma_push_deep_view(a3, attributes, mid);
            assert(attributes.deep_view() =~= leading_lines(
                description@,
                content.transport.deep_view(),
                extmaps.deep_view(),
            ) + seq![valued("mid"@, decimal(first_mid + k as nat))]);
        }
        let block = new_jsep_block(
            description.media.clone(),
            format_ids(&description.payload_types),
            attributes,
        );
        let block = populate_media_description_from_sources(block, &groups[k].1, groups[k].0);
        let MediaDescription {
            media_name,
            media_title,
            connection_information,
            bandwidth,
            encryption_key,
            attributes,
        } = block;
        let mut attributes = attributes;
        let ghost a4 = attributes;
        let mut more = clone_attributes(&transport);
        let ghost m4 = more;
        attributes.append(&mut more);
        proof {
            lemma_append_deep_view(a4, m4, attributes);
        }
        if description.rtcp_mux {
            let ghost a5 = attributes;
            let mux = Attribute::property("rtcp-mux");
            attributes.push(mux);
            proof {
                lemma_push_deep_view(a5, attributes, mux);
            }
        }
        let block = MediaDescription {
            media_name,
            media_title,
            connection_information,
            bandwidth,
            encryption_key,
            attributes,
        };
        proof {
            lemma_deep_view_index(groups, k as int);
            assert(block@.attributes =~= block_attributes(
                description@,
                content.transport.deep_view(),
                extmaps.deep_view(),
                entries[k as int],
                first_mid + k as nat,
            ));
            assert(block@ == wanted[k as int]);
        }
        let ghost before = *blocks;
        blocks.push(block);
        proof {
            lemma_push_deep_view(before, *blocks, block);
            lemma_take_next(wanted, k as int);
            assert((start + wanted.take(k as int)).push(wanted[k as int]) =~= start + wanted.take(
                k + 1,
            ));
        }
        k += 1;
    }
    proof {
        assert(wanted.take(groups.len() as int) == wanted);
    }
    true
}

/// Whether the header extensions of a content can be written.
pub open spec fn content_extmaps_sound(content: ContentView) -> bool {
    match content.description {
        Some(description) => extmaps_sound(description.hdrexts),
        None => true,
    }
}

/// The `extmap` attributes of a content.
pub open spec fn content_extmaps(content: ContentView) -> Seq<AttributeView> {
    match content.description {
        Some(description) => extmap_lines(description.hdrexts),
        None => Seq::empty(),
    }
}

/// Whether each of `contents` can be written.
pub open spec fn contents_sound(contents: Seq<ContentView>) -> bool {
    forall|i: int|
        0 <= i < contents.len() ==> content_sound(#[trigger] contents[i]) && content_extmaps_sound(
            contents[i],
        )
}

/// The blocks of `contents`: those of each content after those of the
/// contents before it, with `mid`s counting up from 0 over all of them.
pub open spec fn blocks_of(contents: Seq<ContentView>) -> Seq<MediaDescriptionView>
    decreases contents.len(),
{
    if contents.len() == 0 {
        Seq::empty()
    } else {
        let before = blocks_of(contents.drop_last());
        before + content_blocks(contents.last(), content_extmaps(contents.last()), before.len())
    }
}

/// The numbers from 0 up to, not including, `n`, in decimal.
pub open spec fn mids(n: nat) -> Seq<Seq<char>> {
    Seq::new(n, |i: int| decimal(i as nat))
}

/// The attributes of the session: `msid-semantic`, and where the session
/// has a content group a `group` attribute that lists the `mid` of every block.
pub open spec fn session_lines(group: Option<GroupView>, blocks: nat) -> Seq<AttributeView> {
    let semantic = seq![valued("msid-semantic"@, " WMS *"@)];
    match group {
        Some(group) => semantic.push(
            valued(
                "group"@,
                group_semantics_text(group.semantics) + " "@ + join(mids(blocks), " "@),
            ),
        ),
        None => semantic,
    }
}

/// A session description with the given origin, attributes and blocks, and
/// else as it is when it is new: version 0, named `-`, at all times.
pub open spec fn jsep_session(
    origin: OriginView,
    attributes: Seq<AttributeView>,
    blocks: Seq<MediaDescriptionView>,
) -> SessionDescriptionView {
    SessionDescriptionView {
        version: 0,
        origin,
        session_name: "-"@,
        session_information: None,
        uri: None,
        email_address: None,
        phone_number: None,
        connection_information: None,
        bandwidth: Seq::empty(),
        time_descriptions: seq![
            TimeDescriptionView {
                timing: Timing { start_time: 0, stop_time: 0 },
                repeat_times: Seq::empty(),
            },
        ],
        time_zones: Seq::empty(),
        encryption_key: None,
        attributes,
        media_descriptions: blocks,
    }
}

/// Why a Jingle session cannot be written as a session description, if it
/// cannot: an address of a party that cannot be read, or else a content
/// with a payload type without name or clock rate, a header extension whose
/// URI cannot be read, or a fingerprint whose hash function has no name in SDP.
pub open spec fn defect_of(jingle: JingleView) -> Option<Error> {
    if !identity_sound(jingle.initiator) || !identity_sound(jingle.responder) {
        Some(Error::InvalidIdentity)
    } else if !contents_sound(jingle.contents) {
        Some(Error::InvalidSignalingDocument)
    } else {
        None
    }
}

/// The session description that a Jingle session stands for, with the given origin.
pub open spec fn session_of(jingle: JingleView, origin: OriginView) -> Result<
    SessionDescriptionView,
    Error,
> {
    match defect_of(jingle) {
        Some(e) => Err(e),
        None => {
            let blocks = blocks_of(jingle.contents);
            Ok(jsep_session(origin, session_lines(jingle.group, blocks.len()), blocks))
        },
    }
}

/// A conversion's outcome with the document, where there is one, as its view.
pub open spec fn session_result(out: Result<SessionDescription, Error>) -> Result<
    SessionDescriptionView,
    Error,
> {
    match out {
        Ok(session) => Ok(session@),
        Err(e) => Err(e),
    }
}

/// Builds the blocks of `contents`; `None` where one of them cannot be written.
pub fn format_contents(contents: &Vec<Content>) -> (out: Option<Vec<MediaDescription>>)
    ensures
        out is Some == contents_sound(contents.deep_view()),
        out is Some ==> out->0.deep_view() == blocks_of(contents.deep_view()),
{
    let mut out: Vec<MediaDescription> = Vec::new();
    let mut i: usize = 0;
    let ghost all = contents.deep_view();
    proof {
        lemma_empty_deep_view(out);
    }
    while i < contents.len()
        invariant
            i <= contents.len(),
            all == contents.deep_view(),
            forall|k: int|
                0 <= k < i ==> content_sound(#[trigger] all[k]) && content_extmaps_sound(all[k]),
            out.deep_view() == blocks_of(all.take(i as int)),
        decreases contents.len() - i,
    {
        proof {
            lemma_deep_view_index(*contents, i as int);
            assert(all.take(i + 1).drop_last() == all.take(i as int));
        }
        let extmaps = match &contents[i].description {
            Some(description) => match format_extmaps(&description.hdrexts) {
                Some(extmaps) => extmaps,
                None => {
                    return None;
                },
            },
            None => {
                let none: Vec<Attribute> = Vec::new();
                proof {
                    lemma_empty_deep_view(none);
                }
                none
            },
        };
        if !append_content_blocks(&mut out, &contents[i], &extmaps) {
            return None;
        }
        i += 1;
    }
    assert(all.take(contents.len() as int) == all);
    Some(out)
}

/// Builds the attributes of the session.
pub fn format_session_lines(group: &Option<Group>, blocks: usize) -> (out: Vec<Attribute>)
    ensures
        out.deep_view() == session_lines(group.deep_view(), blocks as nat),
{
    let mut out: Vec<Attribute> = Vec::new();
    let ghost none = out;
    let semantic = Attribute::with_value("msid-semantic", String::from_str(" WMS *"));
    out.push(semantic);
    proof {
        lemma_empty_deep_view(none);
        lemma_push_deep_view(none, out, semantic);
        assert(out.deep_view() =~= seq![valued("msid-semantic"@, " WMS *"@)]);
    }
    match group {
        Some(group) => {
            let mut numbers: Vec<String> = Vec::new();
            let mut mid: usize = 0;
            while mid < blocks
                invariant
                    mid <= blocks,
                    numbers.deep_view() =~= mids(mid as nat),
                decreases blocks - mid,
            {
                let number = decimal_string(mid as u64);
                let ghost before = numbers;
                let ghost pushed = number;
                numbers.push(number);
                proof {
                    lemma_push_deep_view(before, numbers, pushed);
                }
                mid += 1;
            }
            let mut text = String::from_str(group_semantics_name(group.semantics));
            text.append(" ");
            text.append(join_with(&numbers, " ").as_str());
            let ghost before = out;
            let line = Attribute::with_value("group", text);
            out.push(line);
            proof {
                lemma_push_deep_view(before, out, line);
            }
        },
        None => {},
    }
    out
}

/// The origin of a new session description, from
/// `sdp::SessionDescription::new_jsep_session_description`: the user `-` at
/// `IN IP4 0.0.0.0`, with a session id drawn at random and a version taken
/// from the clock, of which nothing is said.
#[verifier::external_body]
fn fresh_origin() -> (out: Origin)
    ensures
        out@.username == "-"@,
        out@.network_type == "IN"@,
        out@.address_type == "IP4"@,
        out@.unicast_address == "0.0.0.0"@,
{
    let origin = ::sdp::SessionDescription::new_jsep_session_description(false).origin;
    Origin {
        username: origin.username,
        session_id: origin.session_id,
        session_version: origin.session_version,
        network_type: origin.network_type,
        address_type: origin.address_type,
        unicast_address: origin.unicast_address,
    }
}

impl SessionDescription {
    /// The session description that `jingle` stands for, with the given origin.
    pub fn from_jingle_with_origin(jingle: &Jingle, origin: Origin) -> (out: Result<
        SessionDescription,
        Error,
    >)
        ensures
            session_result(out) == session_of(jingle@, origin@),
    {
        if !check_identity(&jingle.initiator) || !check_identity(&jingle.responder) {
            return Err(Error::InvalidIdentity);
        }
        let blocks = match format_contents(&jingle.contents) {
            Some(blocks) => blocks,
            None => {
                return Err(Error::InvalidSignalingDocument);
            },
        };
        let attributes = format_session_lines(&jingle.group, blocks.len());
        let mut time_descriptions: Vec<TimeDescription> = Vec::new();
        let ghost none = time_descriptions;
        let always = TimeDescription {
            timing: Timing { start_time: 0, stop_time: 0 },
            repeat_times: Vec::new(),
        };
        time_descriptions.push(always);
        let out = SessionDescription {
            version: 0,
            origin,
            session_name: String::from_str("-"),
            session_information: None,
            uri: None,
            email_address: None,
            phone_number: None,
            connection_information: None,
            bandwidth: Vec::new(),
            time_descriptions,
            time_zones: Vec::new(),
            encryption_key: None,
            attributes,
            media_descriptions: blocks,
        };
        proof {
            lemma_empty_deep_view(none);
            lemma_empty_deep_view(always.repeat_times);
            lemma_push_deep_view(none, out.time_descriptions, always);
            lemma_empty_deep_view(out.bandwidth);
            assert(out@.time_descriptions =~= seq![
                TimeDescriptionView {
                    timing: Timing { start_time: 0, stop_time: 0 },
                    repeat_times: Seq::empty(),
                },
            ]);
            assert(out@.time_zones =~= Seq::empty());
        }
        Ok(out)
    }

    /// The session description that `jingle` stands for, with a fresh origin.
    ///
    /// Fails with `InvalidIdentity` where the address of a party cannot be
    /// read, and else with `InvalidSignalingDocument` where a content cannot
    /// be written.
    pub fn try_from_jingle(jingle: &Jingle) -> (out: Result<SessionDescription, Error>)
        ensures
            match out {
                Ok(session) => {
                    &&& session_of(jingle@, session@.origin) == Ok::<
                        SessionDescriptionView,
                        Error,
                    >(session@)
                    &&& session@.origin.username == "-"@
                    &&& session@.origin.network_type == "IN"@
                    &&& session@.origin.address_type == "IP4"@
                    &&& session@.origin.unicast_address == "0.0.0.0"@
                },
                Err(e) => defect_of(jingle@) == Some(e),
            },
    {
        SessionDescription::from_jingle_with_origin(jingle, fresh_origin())
    }
}

} // verus!

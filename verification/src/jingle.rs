//! The Jingle session document: a session, its contents, and what each content
//! says of codecs, sources and transport.

use vstd::prelude::*;
use crate::views::lemma_push_deep_view;

verus! {

/// What a Jingle message asks for.
#[derive(Debug, PartialEq, Eq, Clone, Copy)]
pub enum Action {
    ContentAccept,
    ContentAdd,
    ContentModify,
    ContentReject,
    ContentRemove,
    DescriptionInfo,
    SecurityInfo,
    SessionAccept,
    SessionInfo,
    SessionInitiate,
    SessionTerminate,
    TransportAccept,
    TransportInfo,
    TransportReject,
    TransportReplace,
    SourceAdd,
    SourceRemove,
}

/// Which party created a content.
#[derive(Debug, PartialEq, Eq, Clone, Copy)]
pub enum Creator {
    Initiator,
    Responder,
}

/// Which parties send media in a content.
#[derive(Debug, PartialEq, Eq, Clone, Copy)]
pub enum Senders {
    Both,
    Initiator,
    Neither,
    Responder,
}

/// Which end opens the DTLS connection.
#[derive(Debug, PartialEq, Eq, Clone, Copy)]
pub enum Setup {
    Active,
    Passive,
    Actpass,
}

/// The kind of an ICE candidate.
#[derive(Debug, PartialEq, Eq, Clone, Copy)]
pub enum CandidateType {
    Host,
    Prflx,
    Relay,
    Srflx,
}

/// What the members of a source group have to do with each other.
#[derive(Debug, PartialEq, Eq, Clone, Copy)]
pub enum Semantics {
    Ls,
    Fid,
    Srf,
    Anat,
    Fec,
    Ddp,
    Sim,
}

/// What the contents of a content group have to do with each other.
#[derive(Debug, PartialEq, Eq, Clone, Copy)]
pub enum GroupSemantics {
    Ls,
    Bundle,
}

/// A hash function, by name where it is none of the listed ones.
#[derive(Debug, PartialEq, Eq, Clone)]
pub enum Algo {
    Sha1,
    Sha256,
    Sha512,
    Sha3_256,
    Sha3_512,
    Blake2b256,
    Blake2b512,
    Unknown(String),
}

pub enum AlgoView {
    Sha1,
    Sha256,
    Sha512,
    Sha3_256,
    Sha3_512,
    Blake2b256,
    Blake2b512,
    Unknown(Seq<char>),
}

impl DeepView for Algo {
    type V = AlgoView;

    open spec fn deep_view(&self) -> AlgoView {
        self@
    }
}

impl View for Algo {
    type V = AlgoView;

    open spec fn view(&self) -> AlgoView {
        match self {
            Algo::Sha1 => AlgoView::Sha1,
            Algo::Sha256 => AlgoView::Sha256,
            Algo::Sha512 => AlgoView::Sha512,
            Algo::Sha3_256 => AlgoView::Sha3_256,
            Algo::Sha3_512 => AlgoView::Sha3_512,
            Algo::Blake2b256 => AlgoView::Blake2b256,
            Algo::Blake2b512 => AlgoView::Blake2b512,
            Algo::Unknown(name) => AlgoView::Unknown(name@),
        }
    }
}

/// A `name=value` parameter of a payload type.
#[derive(Debug, PartialEq, Eq, Clone)]
pub struct Parameter {
    pub name: String,
    pub value: String,
}

pub struct ParameterView {
    pub name: Seq<char>,
    pub value: Seq<char>,
}

impl View for Parameter {
    type V = ParameterView;

    open spec fn view(&self) -> ParameterView {
        ParameterView { name: self.name@, value: self.value@ }
    }
}

impl DeepView for Parameter {
    type V = ParameterView;

    open spec fn deep_view(&self) -> ParameterView {
        self@
    }
}

/// An RTCP feedback entry of a payload type.
#[derive(Debug, PartialEq, Eq, Clone)]
pub struct RtcpFb {
    pub type_: String,
    pub subtype: Option<String>,
}

pub struct RtcpFbView {
    pub type_: Seq<char>,
    pub subtype: Option<Seq<char>>,
}

impl View for RtcpFb {
    type V = RtcpFbView;

    open spec fn view(&self) -> RtcpFbView {
        RtcpFbView { type_: self.type_@, subtype: self.subtype.deep_view() }
    }
}

impl DeepView for RtcpFb {
    type V = RtcpFbView;

    open spec fn deep_view(&self) -> RtcpFbView {
        self@
    }
}

/// A codec on offer.
#[derive(Debug, PartialEq, Eq, Clone)]
pub struct PayloadType {
    pub id: u8,
    pub name: Option<String>,
    pub clockrate: Option<u32>,
    pub channels: u8,
    pub ptime: Option<u32>,
    pub maxptime: Option<u32>,
    pub parameters: Vec<Parameter>,
    pub rtcp_fbs: Vec<RtcpFb>,
}

pub struct PayloadTypeView {
    pub id: u8,
    pub name: Option<Seq<char>>,
    pub clockrate: Option<u32>,
    pub channels: u8,
    pub ptime: Option<u32>,
    pub maxptime: Option<u32>,
    pub parameters: Seq<ParameterView>,
    pub rtcp_fbs: Seq<RtcpFbView>,
}

impl View for PayloadType {
    type V = PayloadTypeView;

    open spec fn view(&self) -> PayloadTypeView {
        PayloadTypeView {
            id: self.id,
            name: self.name.deep_view(),
            clockrate: self.clockrate,
            channels: self.channels,
            ptime: self.ptime,
            maxptime: self.maxptime,
            parameters: self.parameters.deep_view(),
            rtcp_fbs: self.rtcp_fbs.deep_view(),
        }
    }
}

impl DeepView for PayloadType {
    type V = PayloadTypeView;

    open spec fn deep_view(&self) -> PayloadTypeView {
        self@
    }
}

/// An RTP header extension.
#[derive(Debug, PartialEq, Eq, Clone)]
pub struct RtpHdrext {
    pub id: u16,
    pub uri: String,
}

pub struct RtpHdrextView {
    pub id: u16,
    pub uri: Seq<char>,
}

impl View for RtpHdrext {
    type V = RtpHdrextView;

    open spec fn view(&self) -> RtpHdrextView {
        RtpHdrextView { id: self.id, uri: self.uri@ }
    }
}

impl DeepView for RtpHdrext {
    type V = RtpHdrextView;

    open spec fn deep_view(&self) -> RtpHdrextView {
        self@
    }
}

/// A parameter of a source: a name, and a value where it has one.
#[derive(Debug, PartialEq, Eq, Clone)]
pub struct SourceParameter {
    pub name: String,
    pub value: Option<String>,
}

pub struct SourceParameterView {
    pub name: Seq<char>,
    pub value: Option<Seq<char>>,
}

impl View for SourceParameter {
    type V = SourceParameterView;

    open spec fn view(&self) -> SourceParameterView {
        SourceParameterView { name: self.name@, value: self.value.deep_view() }
    }
}

impl DeepView for SourceParameter {
    type V = SourceParameterView;

    open spec fn deep_view(&self) -> SourceParameterView {
        self@
    }
}

/// A synchronisation source: its SSRC, its parameters, and who owns it where
/// that is known.
#[derive(Debug, PartialEq, Eq, Clone)]
pub struct Source {
    pub id: u32,
    pub parameters: Vec<SourceParameter>,
    pub owner: Option<String>,
}

pub struct SourceView {
    pub id: u32,
    pub parameters: Seq<SourceParameterView>,
    pub owner: Option<Seq<char>>,
}

impl View for Source {
    type V = SourceView;

    open spec fn view(&self) -> SourceView {
        SourceView {
            id: self.id,
            parameters: self.parameters.deep_view(),
            owner: self.owner.deep_view(),
        }
    }
}

impl DeepView for Source {
    type V = SourceView;

    open spec fn deep_view(&self) -> SourceView {
        self@
    }
}

/// A declared group of sources: its semantics and the SSRCs of its members.
#[derive(Debug, PartialEq, Eq, Clone)]
pub struct SourceGroup {
    pub semantics: Semantics,
    pub sources: Vec<u32>,
}

pub struct SourceGroupView {
    pub semantics: Semantics,
    pub sources: Seq<u32>,
}

impl View for SourceGroup {
    type V = SourceGroupView;

    open spec fn view(&self) -> SourceGroupView {
        SourceGroupView { semantics: self.semantics, sources: self.sources@ }
    }
}

impl DeepView for SourceGroup {
    type V = SourceGroupView;

    open spec fn deep_view(&self) -> SourceGroupView {
        self@
    }
}

/// What a content says of its RTP session.
#[derive(Debug, PartialEq, Eq, Clone)]
pub struct RtpDescription {
    pub media: String,
    pub ssrc: Option<String>,
    pub payload_types: Vec<PayloadType>,
    pub rtcp_mux: bool,
    pub ssrc_groups: Vec<SourceGroup>,
    pub ssrcs: Vec<Source>,
    pub hdrexts: Vec<RtpHdrext>,
}

pub struct RtpDescriptionView {
    pub media: Seq<char>,
    pub ssrc: Option<Seq<char>>,
    pub payload_types: Seq<PayloadTypeView>,
    pub rtcp_mux: bool,
    pub ssrc_groups: Seq<SourceGroupView>,
    pub ssrcs: Seq<SourceView>,
    pub hdrexts: Seq<RtpHdrextView>,
}

impl View for RtpDescription {
    type V = RtpDescriptionView;

    open spec fn view(&self) -> RtpDescriptionView {
        RtpDescriptionView {
            media: self.media@,
            ssrc: self.ssrc.deep_view(),
            payload_types: self.payload_types.deep_view(),
            rtcp_mux: self.rtcp_mux,
            ssrc_groups: self.ssrc_groups.deep_view(),
            ssrcs: self.ssrcs.deep_view(),
            hdrexts: self.hdrexts.deep_view(),
        }
    }
}

impl DeepView for RtpDescription {
    type V = RtpDescriptionView;

    open spec fn deep_view(&self) -> RtpDescriptionView {
        self@
    }
}

impl RtpDescription {
    /// A description of the given media type with nothing in it.
    pub fn new(media: String) -> (out: Self)
        ensures
            out@ == RtpDescriptionView::empty(media@),
    {
        let out = RtpDescription {
            media,
            ssrc: None,
            payload_types: Vec::new(),
            rtcp_mux: false,
            ssrc_groups: Vec::new(),
            ssrcs: Vec::new(),
            hdrexts: Vec::new(),
        };
        assert(out@.payload_types =~= Seq::empty());
        assert(out@.ssrc_groups =~= Seq::empty());
        assert(out@.ssrcs =~= Seq::empty());
        assert(out@.hdrexts =~= Seq::empty());
        out
    }
}

impl RtpDescriptionView {
    /// A description of the given media type with nothing in it.
    pub open spec fn empty(media: Seq<char>) -> RtpDescriptionView {
        RtpDescriptionView {
            media,
            ssrc: None,
            payload_types: Seq::empty(),
            rtcp_mux: false,
            ssrc_groups: Seq::empty(),
            ssrcs: Seq::empty(),
            hdrexts: Seq::empty(),
        }
    }
}

/// An ICE candidate. Addresses are held in their text form.
#[derive(Debug, PartialEq, Eq, Clone)]
pub struct Candidate {
    pub foundation: String,
    pub component: u8,
    pub protocol: String,
    pub priority: u32,
    pub ip: String,
    pub port: u16,
    pub type_: CandidateType,
    pub rel_addr: Option<String>,
    pub rel_port: Option<u16>,
    pub generation: u8,
}

pub struct CandidateView {
    pub foundation: Seq<char>,
    pub component: u8,
    pub protocol: Seq<char>,
    pub priority: u32,
    pub ip: Seq<char>,
    pub port: u16,
    pub type_: CandidateType,
    pub rel_addr: Option<Seq<char>>,
    pub rel_port: Option<u16>,
    pub generation: u8,
}

impl View for Candidate {
    type V = CandidateView;

    open spec fn view(&self) -> CandidateView {
        CandidateView {
            foundation: self.foundation@,
            component: self.component,
            protocol: self.protocol@,
            priority: self.priority,
            ip: self.ip@,
            port: self.port,
            type_: self.type_,
            rel_addr: self.rel_addr.deep_view(),
            rel_port: self.rel_port,
            generation: self.generation,
        }
    }
}

impl DeepView for Candidate {
    type V = CandidateView;

    open spec fn deep_view(&self) -> CandidateView {
        self@
    }
}

/// The fingerprint of a DTLS certificate.
#[derive(Debug, PartialEq, Eq, Clone)]
pub struct Fingerprint {
    pub hash: Algo,
    pub setup: Option<Setup>,
    pub value: Vec<u8>,
}

pub struct FingerprintView {
    pub hash: AlgoView,
    pub setup: Option<Setup>,
    pub value: Seq<u8>,
}

impl View for Fingerprint {
    type V = FingerprintView;

    open spec fn view(&self) -> FingerprintView {
        FingerprintView { hash: self.hash@, setup: self.setup, value: self.value@ }
    }
}

impl DeepView for Fingerprint {
    type V = FingerprintView;

    open spec fn deep_view(&self) -> FingerprintView {
        self@
    }
}

/// An ICE-UDP transport: credentials, candidates, fingerprint, and the
/// address of the bridge's web socket where there is one.
#[derive(Debug, PartialEq, Eq, Clone)]
pub struct Transport {
    pub pwd: Option<String>,
    pub ufrag: Option<String>,
    pub candidates: Vec<Candidate>,
    pub fingerprint: Option<Fingerprint>,
    pub web_socket: Option<String>,
}

pub struct TransportView {
    pub pwd: Option<Seq<char>>,
    pub ufrag: Option<Seq<char>>,
    pub candidates: Seq<CandidateView>,
    pub fingerprint: Option<FingerprintView>,
    pub web_socket: Option<Seq<char>>,
}

impl View for Transport {
    type V = TransportView;

    open spec fn view(&self) -> TransportView {
        TransportView {
            pwd: self.pwd.deep_view(),
            ufrag: self.ufrag.deep_view(),
            candidates: self.candidates.deep_view(),
            fingerprint: self.fingerprint.deep_view(),
            web_socket: self.web_socket.deep_view(),
        }
    }
}

impl DeepView for Transport {
    type V = TransportView;

    open spec fn deep_view(&self) -> TransportView {
        self@
    }
}

impl TransportView {
    /// A transport with nothing in it.
    pub open spec fn empty() -> TransportView {
        TransportView {
            pwd: None,
            ufrag: None,
            candidates: Seq::empty(),
            fingerprint: None,
            web_socket: None,
        }
    }
}

impl Transport {
    /// A transport with nothing in it.
    pub fn new() -> (out: Transport)
        ensures
            out@ == TransportView::empty(),
    {
        let out = Transport {
            pwd: None,
            ufrag: None,
            candidates: Vec::new(),
            fingerprint: None,
            web_socket: None,
        };
        assert(out@.candidates =~= Seq::empty());
        out
    }

    /// This transport with `candidate` after the candidates it has.
    pub fn add_candidate(self, candidate: Candidate) -> (out: Transport)
        ensures
            out@ == (TransportView { candidates: self@.candidates.push(candidate@), ..self@ }),
    {
        let mut out = self;
        let ghost before = out.candidates;
        out.candidates.push(candidate);
        proof {
            lemma_push_deep_view(before, out.candidates, candidate);
        }
        out
    }

    /// This transport with `fingerprint` in place of any it had.
    pub fn with_fingerprint(self, fingerprint: Fingerprint) -> (out: Transport)
        ensures
            out@ == (TransportView { fingerprint: Some(fingerprint@), ..self@ }),
    {
        let mut out = self;
        out.fingerprint = Some(fingerprint);
        out
    }
}

/// One content of a session: a media type with its description and transport.
#[derive(Debug, PartialEq, Eq, Clone)]
pub struct Content {
    pub creator: Creator,
    pub name: String,
    pub senders: Senders,
    pub description: Option<RtpDescription>,
    pub transport: Option<Transport>,
}

pub struct ContentView {
    pub creator: Creator,
    pub name: Seq<char>,
    pub senders: Senders,
    pub description: Option<RtpDescriptionView>,
    pub transport: Option<TransportView>,
}

impl View for Content {
    type V = ContentView;

    open spec fn view(&self) -> ContentView {
        ContentView {
            creator: self.creator,
            name: self.name@,
            senders: self.senders,
            description: self.description.deep_view(),
            transport: self.transport.deep_view(),
        }
    }
}

impl DeepView for Content {
    type V = ContentView;

    open spec fn deep_view(&self) -> ContentView {
        self@
    }
}

/// A group of contents, by name.
#[derive(Debug, PartialEq, Eq, Clone)]
pub struct Group {
    pub semantics: GroupSemantics,
    pub contents: Vec<String>,
}

pub struct GroupView {
    pub semantics: GroupSemantics,
    pub contents: Seq<Seq<char>>,
}

impl View for Group {
    type V = GroupView;

    open spec fn view(&self) -> GroupView {
        GroupView { semantics: self.semantics, contents: self.contents.deep_view() }
    }
}

impl DeepView for Group {
    type V = GroupView;

    open spec fn deep_view(&self) -> GroupView {
        self@
    }
}

/// A Jingle session message.
#[derive(Debug, PartialEq, Eq, Clone)]
pub struct Jingle {
    pub action: Action,
    pub initiator: Option<String>,
    pub responder: Option<String>,
    pub sid: String,
    pub contents: Vec<Content>,
    pub group: Option<Group>,
}

pub struct JingleView {
    pub action: Action,
    pub initiator: Option<Seq<char>>,
    pub responder: Option<Seq<char>>,
    pub sid: Seq<char>,
    pub contents: Seq<ContentView>,
    pub group: Option<GroupView>,
}

impl View for Jingle {
    type V = JingleView;

    open spec fn view(&self) -> JingleView {
        JingleView {
            action: self.action,
            initiator: self.initiator.deep_view(),
            responder: self.responder.deep_view(),
            sid: self.sid@,
            contents: self.contents.deep_view(),
            group: self.group.deep_view(),
        }
    }
}

} // verus!

//! The closed vocabularies of the two formats, and the names they go by in text.

use vstd::prelude::*;
use crate::jingle::{Algo, AlgoView, CandidateType, GroupSemantics, Semantics, Setup};
use crate::text::str_eq;

verus! {

/// The name of a DTLS role in a `setup` attribute.
pub open spec fn setup_text(setup: Setup) -> Seq<char> {
    match setup {
        Setup::Active => "active"@,
        Setup::Passive => "passive"@,
        Setup::Actpass => "actpass"@,
    }
}

/// The DTLS role that `text` names, if it names one.
pub open spec fn setup_from_text(text: Seq<char>) -> Option<Setup> {
    if text == "passive"@ {
        Some(Setup::Passive)
    } else if text == "active"@ {
        Some(Setup::Active)
    } else if text == "actpass"@ {
        Some(Setup::Actpass)
    } else {
        None
    }
}

/// The name of a DTLS role.
pub fn setup_name(setup: Setup) -> (out: &'static str)
    ensures
        out@ == setup_text(setup),
{
    match setup {
        Setup::Active => "active",
        Setup::Passive => "passive",
        Setup::Actpass => "actpass",
    }
}

/// Reads the name of a DTLS role.
pub fn parse_setup(text: &str) -> (out: Option<Setup>)
    ensures
        out == setup_from_text(text@),
{
    if str_eq(text, "passive") {
        Some(Setup::Passive)
    } else if str_eq(text, "active") {
        Some(Setup::Active)
    } else if str_eq(text, "actpass") {
        Some(Setup::Actpass)
    } else {
        None
    }
}

/// The name of a candidate type after `typ`.
pub open spec fn candidate_type_text(kind: CandidateType) -> Seq<char> {
    match kind {
        CandidateType::Host => "host"@,
        CandidateType::Prflx => "prflx"@,
        CandidateType::Relay => "relay"@,
        CandidateType::Srflx => "srflx"@,
    }
}

/// The candidate type that `text` names, if it names one.
pub open spec fn candidate_type_from_text(text: Seq<char>) -> Option<CandidateType> {
    if text == "host"@ {
        Some(CandidateType::Host)
    } else if text == "prflx"@ {
        Some(CandidateType::Prflx)
    } else if text == "relay"@ {
        Some(CandidateType::Relay)
    } else if text == "srflx"@ {
        Some(CandidateType::Srflx)
    } else {
        None
    }
}

/// The name of a candidate type.
pub fn candidate_type_name(kind: CandidateType) -> (out: &'static str)
    ensures
        out@ == candidate_type_text(kind),
{
    match kind {
        CandidateType::Host => "host",
        CandidateType::Prflx => "prflx",
        CandidateType::Relay => "relay",
        CandidateType::Srflx => "srflx",
    }
}

/// Reads the name of a candidate type.
pub fn parse_candidate_type(text: &str) -> (out: Option<CandidateType>)
    ensures
        out == candidate_type_from_text(text@),
{
    if str_eq(text, "host") {
        Some(CandidateType::Host)
    } else if str_eq(text, "prflx") {
        Some(CandidateType::Prflx)
    } else if str_eq(text, "relay") {
        Some(CandidateType::Relay)
    } else if str_eq(text, "srflx") {
        Some(CandidateType::Srflx)
    } else {
        None
    }
}

/// The token of a source group's semantics.
pub open spec fn semantics_text(semantics: Semantics) -> Seq<char> {
    match semantics {
        Semantics::Ls => "LS"@,
        Semantics::Fid => "FID"@,
        Semantics::Srf => "SRF"@,
        Semantics::Anat => "ANAT"@,
        Semantics::Fec => "FEC"@,
        Semantics::Ddp => "DDP"@,
        Semantics::Sim => "SIM"@,
    }
}

/// The source-group semantics that `text` names, if it names one.
pub open spec fn semantics_from_text(text: Seq<char>) -> Option<Semantics> {
    if text == "LS"@ {
        Some(Semantics::Ls)
    } else if text == "FID"@ {
        Some(Semantics::Fid)
    } else if text == "SRF"@ {
        Some(Semantics::Srf)
    } else if text == "ANAT"@ {
        Some(Semantics::Anat)
    } else if text == "FEC"@ {
        Some(Semantics::Fec)
    } else if text == "DDP"@ {
        Some(Semantics::Ddp)
    } else if text == "SIM"@ {
        Some(Semantics::Sim)
    } else {
        None
    }
}

/// The token of a source group's semantics.
pub fn semantics_name(semantics: Semantics) -> (out: &'static str)
    ensures
        out@ == semantics_text(semantics),
{
    match semantics {
        Semantics::Ls => "LS",
        Semantics::Fid => "FID",
        Semantics::Srf => "SRF",
        Semantics::Anat => "ANAT",
        Semantics::Fec => "FEC",
        Semantics::Ddp => "DDP",
        Semantics::Sim => "SIM",
    }
}

/// Reads the token of a source group's semantics.
pub fn parse_semantics(text: &str) -> (out: Option<Semantics>)
    ensures
        out == semantics_from_text(text@),
{
    if str_eq(text, "LS") {
        Some(Semantics::Ls)
    } else if str_eq(text, "FID") {
        Some(Semantics::Fid)
    } else if str_eq(text, "SRF") {
        Some(Semantics::Srf)
    } else if str_eq(text, "ANAT") {
        Some(Semantics::Anat)
    } else if str_eq(text, "FEC") {
        Some(Semantics::Fec)
    } else if str_eq(text, "DDP") {
        Some(Semantics::Ddp)
    } else if str_eq(text, "SIM") {
        Some(Semantics::Sim)
    } else {
        None
    }
}

/// The token of a content group's semantics.
pub open spec fn group_semantics_text(semantics: GroupSemantics) -> Seq<char> {
    match semantics {
        GroupSemantics::Ls => "LS"@,
        GroupSemantics::Bundle => "BUNDLE"@,
    }
}

/// The content-group semantics that `text` names, if it names one.
pub open spec fn group_semantics_from_text(text: Seq<char>) -> Option<GroupSemantics> {
    if text == "LS"@ {
        Some(GroupSemantics::Ls)
    } else if text == "BUNDLE"@ {
        Some(GroupSemantics::Bundle)
    } else {
        None
    }
}

/// The token of a content group's semantics.
pub fn group_semantics_name(semantics: GroupSemantics) -> (out: &'static str)
    ensures
        out@ == group_semantics_text(semantics),
{
    match semantics {
        GroupSemantics::Ls => "LS",
        GroupSemantics::Bundle => "BUNDLE",
    }
}

/// Reads the token of a content group's semantics.
pub fn parse_group_semantics(text: &str) -> (out: Option<GroupSemantics>)
    ensures
        out == group_semantics_from_text(text@),
{
    if str_eq(text, "LS") {
        Some(GroupSemantics::Ls)
    } else if str_eq(text, "BUNDLE") {
        Some(GroupSemantics::Bundle)
    } else {
        None
    }
}

/// Whether `name` is one of the further hash function names that a
/// fingerprint may carry, beside those of the three listed functions.
pub open spec fn is_further_hash_name(name: Seq<char>) -> bool {
    name == "sha-224"@ || name == "sha-384"@ || name == "shake128"@ || name == "shake256"@ || name
        == "md5"@ || name == "md2"@
}

/// The name under which a hash function stands in a `fingerprint` attribute,
/// where it has one.
pub open spec fn hash_name(hash: AlgoView) -> Option<Seq<char>> {
    match hash {
        AlgoView::Sha1 => Some("sha-1"@),
        AlgoView::Sha256 => Some("sha-256"@),
        AlgoView::Sha512 => Some("sha-512"@),
        AlgoView::Unknown(name) => if is_further_hash_name(name) {
            Some(name)
        } else {
            None
        },
        _ => None,
    }
}

/// The hash function that `name` stands for in a `fingerprint` attribute, if
/// it stands for one.
pub open spec fn hash_from_name(name: Seq<char>) -> Option<AlgoView> {
    if name == "sha-1"@ {
        Some(AlgoView::Sha1)
    } else if name == "sha-256"@ {
        Some(AlgoView::Sha256)
    } else if name == "sha-512"@ {
        Some(AlgoView::Sha512)
    } else if is_further_hash_name(name) {
        Some(AlgoView::Unknown(name))
    } else {
        None
    }
}

/// Whether `name` is one of the further hash function names.
pub fn further_hash_name(name: &str) -> (out: bool)
    ensures
        out == is_further_hash_name(name@),
{
    str_eq(name, "sha-224") || str_eq(name, "sha-384") || str_eq(name, "shake128") || str_eq(
        name,
        "shake256",
    ) || str_eq(name, "md5") || str_eq(name, "md2")
}

/// The name of a hash function in a `fingerprint` attribute, where it has one.
pub fn hash_to_name(hash: &Algo) -> (out: Option<String>)
    ensures
        out.deep_view() == hash_name(hash@),
{
    match hash {
        Algo::Sha1 => Some(String::from_str("sha-1")),
        Algo::Sha256 => Some(String::from_str("sha-256")),
        Algo::Sha512 => Some(String::from_str("sha-512")),
        Algo::Unknown(name) => {
            if further_hash_name(name.as_str()) {
                Some(name.clone())
            } else {
                None
            }
        },
        _ => None,
    }
}

/// Reads the name of a hash function from a `fingerprint` attribute.
pub fn parse_hash_name(name: &str) -> (out: Option<Algo>)
    ensures
        out.deep_view() == hash_from_name(name@),
{
    if str_eq(name, "sha-1") {
        Some(Algo::Sha1)
    } else if str_eq(name, "sha-256") {
        Some(Algo::Sha256)
    } else if str_eq(name, "sha-512") {
        Some(Algo::Sha512)
    } else if further_hash_name(name) {
        Some(Algo::Unknown(String::from_str(name)))
    } else {
        None
    }
}

} // verus!

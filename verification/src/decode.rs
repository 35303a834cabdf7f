//! From an SDP session description to a Jingle session.
//!
//! The media blocks are folded by media type. The first block of a type gives
//! the content its codecs, header extensions and transport; every block of the
//! type adds its sources and source groups.

use vstd::prelude::*;
use crate::description::{
    clone_text, find_attribute, first_value, first_with_key, has_attribute, has_key, value_of,
    values_for, values_of, Attribute, AttributeView, MediaDescription, MediaDescriptionView,
    SessionDescription, SessionDescriptionView,
};
use crate::error::Error;
use crate::identity::{jid_text, read_jid};
use crate::jingle::{
    Action, Candidate, CandidateView, Content, ContentView, Creator, Fingerprint, FingerprintView,
    Group, GroupView, Jingle, JingleView, Parameter, ParameterView, PayloadType, PayloadTypeView,
    RtcpFb, RtcpFbView, RtpDescription, RtpDescriptionView, RtpHdrext, RtpHdrextView, Senders,
    Setup, Source, SourceGroup, SourceGroupView, SourceParameter, SourceParameterView, SourceView,
    Transport, TransportView,
};
use crate::names::{
    candidate_type_from_text, group_semantics_from_text, hash_from_name, parse_candidate_type,
    parse_group_semantics, parse_hash_name, parse_semantics, parse_setup, semantics_from_text,
    setup_from_text,
};
use crate::text::{
    bytes_from_colon_hex, chars_eq, from_chars, head, head_tail_chars, lemma_chars_deep_view,
    lemma_split_nonempty, parse_colon_hex, parse_unsigned, split, split_chars, split_once,
    split_once_chars, str_eq, tail, to_chars, unsigned_from_text,
};
use crate::views::{
    lemma_append_deep_view, lemma_deep_view_index, lemma_empty_deep_view, lemma_push_deep_view,
    lemma_take_next,
};

verus! {

/// The number that `text` denotes, where it fits eight bits.
pub open spec fn u8_from_text(text: Seq<char>) -> Option<u8> {
    match unsigned_from_text(text, 0xff) {
        Some(n) => Some(n as u8),
        None => None,
    }
}

/// The number that `text` denotes, where it fits sixteen bits.
pub open spec fn u16_from_text(text: Seq<char>) -> Option<u16> {
    match unsigned_from_text(text, 0xffff) {
        Some(n) => Some(n as u16),
        None => None,
    }
}

/// The number that `text` denotes, where it fits thirty-two bits.
pub open spec fn u32_from_text(text: Seq<char>) -> Option<u32> {
    match unsigned_from_text(text, 0xffff_ffff) {
        Some(n) => Some(n as u32),
        None => None,
    }
}

/// Reads an eight-bit number.
pub fn parse_u8(text: &Vec<char>) -> (out: Option<u8>)
    ensures
        out == u8_from_text(text@),
{
    match parse_unsigned(text, 0xff) {
        Some(n) => Some(n as u8),
        None => None,
    }
}

/// Reads a sixteen-bit number.
pub fn parse_u16(text: &Vec<char>) -> (out: Option<u16>)
    ensures
        out == u16_from_text(text@),
{
    match parse_unsigned(text, 0xffff) {
        Some(n) => Some(n as u16),
        None => None,
    }
}

/// Reads a thirty-two-bit number.
pub fn parse_u32(text: &Vec<char>) -> (out: Option<u32>)
    ensures
        out == u32_from_text(text@),
{
    match parse_unsigned(text, 0xffff_ffff) {
        Some(n) => Some(n as u32),
        None => None,
    }
}

/// The payload type that the value of an `rtpmap` attribute declares:
/// `<id> <name>/<clock rate>[/<channels>]`, one channel where none is given.
/// It has no parameters and no feedback entries yet.
pub open spec fn rtpmap_entry(value: Seq<char>) -> Option<PayloadTypeView> {
    match (u8_from_text(head(value, ' ')), tail(value, ' ')) {
        (Some(id), Some(codec)) => {
            let parts = split(codec, '/');
            if parts.len() < 2 {
                None
            } else {
                let channels = if parts.len() >= 3 {
                    u8_from_text(parts[2])
                } else {
                    Some(1u8)
                };
                match (u32_from_text(parts[1]), channels) {
                    (Some(clockrate), Some(channels)) => Some(
                        PayloadTypeView {
                            id,
                            name: Some(parts[0]),
                            clockrate: Some(clockrate),
                            channels,
                            ptime: None,
                            maxptime: None,
                            parameters: Seq::empty(),
                            rtcp_fbs: Seq::empty(),
                        },
                    ),
                    _ => None,
                }
            }
        },
        _ => None,
    }
}

/// The payload types that `rtpmap` values declare, if each of them declares one.
pub open spec fn rtpmap_entries(values: Seq<Seq<char>>) -> Option<Seq<PayloadTypeView>> {
    if forall|i: int| 0 <= i < values.len() ==> rtpmap_entry(#[trigger] values[i]) is Some {
        Some(Seq::new(values.len(), |i: int| rtpmap_entry(values[i])->0))
    } else {
        None
    }
}

/// The parameters among `pieces`: each piece with a `=` in it, cut at the
/// first one. Pieces without are passed over.
pub open spec fn parameters_of(pieces: Seq<Seq<char>>) -> Seq<ParameterView>
    decreases pieces.len(),
{
    if pieces.len() == 0 {
        Seq::empty()
    } else {
        let before = parameters_of(pieces.drop_last());
        match split_once(pieces.last(), '=') {
            Some((name, value)) => before.push(ParameterView { name, value }),
            None => before,
        }
    }
}

/// What the value of an `fmtp` attribute says: `<id> <parameters>`, the
/// parameters parted by `;`.
pub open spec fn fmtp_entry(value: Seq<char>) -> Option<(u8, Seq<ParameterView>)> {
    match (u8_from_text(head(value, ' ')), tail(value, ' ')) {
        (Some(id), Some(parameters)) => Some((id, parameters_of(split(parameters, ';')))),
        _ => None,
    }
}

/// What `fmtp` values say, if each of them can be read.
pub open spec fn fmtp_entries(values: Seq<Seq<char>>) -> Option<Seq<(u8, Seq<ParameterView>)>> {
    if forall|i: int| 0 <= i < values.len() ==> fmtp_entry(#[trigger] values[i]) is Some {
        Some(Seq::new(values.len(), |i: int| fmtp_entry(values[i])->0))
    } else {
        None
    }
}

/// What the value of an `rtcp-fb` attribute says: `<id> <type>[ <subtype>]`.
pub open spec fn rtcp_fb_entry(value: Seq<char>) -> Option<(u8, RtcpFbView)> {
    match (u8_from_text(head(value, ' ')), tail(value, ' ')) {
        (Some(id), Some(feedback)) => Some(
            (id, RtcpFbView { type_: head(feedback, ' '), subtype: tail(feedback, ' ') }),
        ),
        _ => None,
    }
}

/// What `rtcp-fb` values say, if each of them can be read.
pub open spec fn rtcp_fb_entries(values: Seq<Seq<char>>) -> Option<Seq<(u8, RtcpFbView)>> {
    if forall|i: int| 0 <= i < values.len() ==> rtcp_fb_entry(#[trigger] values[i]) is Some {
        Some(Seq::new(values.len(), |i: int| rtcp_fb_entry(values[i])->0))
    } else {
        None
    }
}

/// Whether one of `payload_types` has the given id.
pub open spec fn knows_id(payload_types: Seq<PayloadTypeView>, id: u8) -> bool {
    exists|i: int| 0 <= i < payload_types.len() && (#[trigger] payload_types[i]).id == id
}

/// The parameters that `fmtps` give for the payload type `id`, in order.
pub open spec fn parameters_for(id: u8, fmtps: Seq<(u8, Seq<ParameterView>)>) -> Seq<
    ParameterView,
>
    decreases fmtps.len(),
{
    if fmtps.len() == 0 {
        Seq::empty()
    } else {
        let before = parameters_for(id, fmtps.drop_last());
        if fmtps.last().0 == id {
            before + fmtps.last().1
        } else {
            before
        }
    }
}

/// The feedback entries that `feedbacks` give for the payload type `id`, in order.
pub open spec fn feedback_for(id: u8, feedbacks: Seq<(u8, RtcpFbView)>) -> Seq<RtcpFbView>
    decreases feedbacks.len(),
{
    if feedbacks.len() == 0 {
        Seq::empty()
    } else {
        let before = feedback_for(id, feedbacks.drop_last());
        if feedbacks.last().0 == id {
            before.push(feedbacks.last().1)
        } else {
            before
        }
    }
}

/// Whether each entry of `fmtps` is for one of `payload_types`.
pub open spec fn fmtps_known(
    payload_types: Seq<PayloadTypeView>,
    fmtps: Seq<(u8, Seq<ParameterView>)>,
) -> bool {
    forall|j: int| 0 <= j < fmtps.len() ==> knows_id(payload_types, (#[trigger] fmtps[j]).0)
}

/// Whether each entry of `feedbacks` is for one of `payload_types`.
pub open spec fn feedbacks_known(
    payload_types: Seq<PayloadTypeView>,
    feedbacks: Seq<(u8, RtcpFbView)>,
) -> bool {
    forall|j: int|
        0 <= j < feedbacks.len() ==> knows_id(payload_types, (#[trigger] feedbacks[j]).0)
}

/// Each of `payload_types` with the parameters and feedback entries that are for it.
pub open spec fn with_details(
    payload_types: Seq<PayloadTypeView>,
    fmtps: Seq<(u8, Seq<ParameterView>)>,
    feedbacks: Seq<(u8, RtcpFbView)>,
) -> Seq<PayloadTypeView> {
    Seq::new(
        payload_types.len(),
        |i: int|
            PayloadTypeView {
                parameters: parameters_for(payload_types[i].id, fmtps),
                rtcp_fbs: feedback_for(payload_types[i].id, feedbacks),
                ..payload_types[i]
            },
    )
}

/// The payload types that the attributes of a media block declare: one for
/// each `rtpmap`, with what the `fmtp` and `rtcp-fb` attributes add to it.
/// `None` where one of these attributes cannot be read, or where an `fmtp` or
/// `rtcp-fb` attribute is for a payload type that no `rtpmap` declares.
pub open spec fn payload_types_of(attributes: Seq<AttributeView>) -> Option<
    Seq<PayloadTypeView>,
> {
    match (
        rtpmap_entries(values_of(attributes, "rtpmap"@)),
        fmtp_entries(values_of(attributes, "fmtp"@)),
        rtcp_fb_entries(values_of(attributes, "rtcp-fb"@)),
    ) {
        (Some(declared), Some(fmtps), Some(feedbacks)) => {
            if fmtps_known(declared, fmtps) && feedbacks_known(declared, feedbacks) {
                Some(with_details(declared, fmtps, feedbacks))
            } else {
                None
            }
        },
        _ => None,
    }
}

/// Reads the value of an `rtpmap` attribute.
pub fn parse_rtpmap(value: &Vec<char>) -> (out: Option<PayloadType>)
    ensures
        out.deep_view() == rtpmap_entry(value@),
{
    let (id_text, rest) = head_tail_chars(value, ' ');
    let id = match parse_u8(&id_text) {
        Some(id) => id,
        None => {
            return None;
        },
    };
    let codec = match rest {
        Some(codec) => codec,
        None => {
            return None;
        },
    };
    let parts = split_chars(&codec, '/');
    if parts.len() < 2 {
        return None;
    }
    proof {
        lemma_deep_view_index(parts, 0);
        lemma_deep_view_index(parts, 1);
        lemma_chars_deep_view(parts@[0]);
        lemma_chars_deep_view(parts@[1]);
    }
    let clockrate = match parse_u32(&parts[1]) {
        Some(clockrate) => clockrate,
        None => {
            return None;
        },
    };
    let channels: u8 = if parts.len() >= 3 {
        proof {
            lemma_deep_view_index(parts, 2);
            lemma_chars_deep_view(parts@[2]);
        }
        match parse_u8(&parts[2]) {
            Some(channels) => channels,
            None => {
                return None;
            },
        }
    } else {
        1
    };
    let out = PayloadType {
        id,
        name: Some(from_chars(&parts[0])),
        clockrate: Some(clockrate),
        channels,
        ptime: None,
        maxptime: None,
        parameters: Vec::new(),
        rtcp_fbs: Vec::new(),
    };
    proof {
        lemma_empty_deep_view(out.parameters);
        lemma_empty_deep_view(out.rtcp_fbs);
    }
    Some(out)
}

/// Reads `rtpmap` values.
pub fn parse_rtpmaps(values: &Vec<Vec<char>>) -> (out: Option<Vec<PayloadType>>)
    ensures
        out.deep_view() == rtpmap_entries(values.deep_view()),
{
    let mut out: Vec<PayloadType> = Vec::new();
    let mut i: usize = 0;
    let ghost all = values.deep_view();
    while i < values.len()
        invariant
            i <= values.len(),
            all == values.deep_view(),
            forall|k: int| 0 <= k < i ==> rtpmap_entry(#[trigger] all[k]) is Some,
            out.deep_view() =~= Seq::new(i as nat, |k: int| rtpmap_entry(all[k])->0),
        decreases values.len() - i,
    {
        proof {
            lemma_deep_view_index(*values, i as int);
            lemma_chars_deep_view(values@[i as int]);
        }
        match parse_rtpmap(&values[i]) {
            Some(entry) => {
                let ghost before = out;
                let ghost pushed = entry;
                out.push(entry);
                proof {
                    lemma_push_deep_view(before, out, pushed);
                }
            },
            None => {
                return None;
            },
        }
        i += 1;
    }
    assert(out.deep_view() =~= rtpmap_entries(all)->0);
    Some(out)
}

/// Reads the `name=value` pieces among `pieces`.
pub fn parse_parameters(pieces: &Vec<Vec<char>>) -> (out: Vec<Parameter>)
    ensures
        out.deep_view() == parameters_of(pieces.deep_view()),
{
    let mut out: Vec<Parameter> = Vec::new();
    let mut i: usize = 0;
    let ghost all = pieces.deep_view();
    proof {
        lemma_empty_deep_view(out);
    }
    while i < pieces.len()
        invariant
            i <= pieces.len(),
            all == pieces.deep_view(),
            out.deep_view() == parameters_of(all.take(i as int)),
        decreases pieces.len() - i,
    {
        proof {
            lemma_deep_view_index(*pieces, i as int);
            lemma_chars_deep_view(pieces@[i as int]);
            assert(all.take(i + 1).drop_last() == all.take(i as int));
        }
        match split_once_chars(&pieces[i], '=') {
            Some((name, value)) => {
                let parameter = Parameter { name: from_chars(&name), value: from_chars(&value) };
                let ghost before = out;
                let ghost pushed = parameter;
                out.push(parameter);
                proof {
                    lemma_push_deep_view(before, out, pushed);
                }
            },
            None => {},
        }
        i += 1;
    }
    assert(all.take(pieces.len() as int) == all);
    out
}

/// Reads the value of an `fmtp` attribute.
pub fn parse_fmtp(value: &Vec<char>) -> (out: Option<(u8, Vec<Parameter>)>)
    ensures
        out.deep_view() == fmtp_entry(value@),
{
    let (id_text, rest) = head_tail_chars(value, ' ');
    match (parse_u8(&id_text), rest) {
        (Some(id), Some(parameters)) => {
            let pieces = split_chars(&parameters, ';');
            Some((id, parse_parameters(&pieces)))
        },
        _ => None,
    }
}

/// Reads `fmtp` values.
pub fn parse_fmtps(values: &Vec<Vec<char>>) -> (out: Option<Vec<(u8, Vec<Parameter>)>>)
    ensures
        out.deep_view() == fmtp_entries(values.deep_view()),
{
    let mut out: Vec<(u8, Vec<Parameter>)> = Vec::new();
    let mut i: usize = 0;
    let ghost all = values.deep_view();
    while i < values.len()
        invariant
            i <= values.len(),
            all == values.deep_view(),
            forall|k: int| 0 <= k < i ==> fmtp_entry(#[trigger] all[k]) is Some,
            out.deep_view() =~= Seq::new(i as nat, |k: int| fmtp_entry(all[k])->0),
        decreases values.len() - i,
    {
        proof {
            lemma_deep_view_index(*values, i as int);
            lemma_chars_deep_view(values@[i as int]);
        }
        match parse_fmtp(&values[i]) {
            Some(entry) => {
                let ghost before = out;
                let ghost pushed = entry;
                out.push(entry);
                proof {
                    lemma_push_deep_view(before, out, pushed);
                }
            },
            None => {
                return None;
            },
        }
        i += 1;
    }
    assert(out.deep_view() =~= fmtp_entries(all)->0);
    Some(out)
}

/// Reads the value of an `rtcp-fb` attribute.
pub fn parse_rtcp_fb(value: &Vec<char>) -> (out: Option<(u8, RtcpFb)>)
    ensures
        out.deep_view() == rtcp_fb_entry(value@),
{
    let (id_text, rest) = head_tail_chars(value, ' ');
    match (parse_u8(&id_text), rest) {
        (Some(id), Some(feedback)) => {
            let (type_, subtype) = head_tail_chars(&feedback, ' ');
            let subtype = match subtype {
                Some(subtype) => Some(from_chars(&subtype)),
                None => None,
            };
            Some((id, RtcpFb { type_: from_chars(&type_), subtype }))
        },
        _ => None,
    }
}

/// Reads `rtcp-fb` values.
pub fn parse_rtcp_fbs(values: &Vec<Vec<char>>) -> (out: Option<Vec<(u8, RtcpFb)>>)
    ensures
        out.deep_view() == rtcp_fb_entries(values.deep_view()),
{
    let mut out: Vec<(u8, RtcpFb)> = Vec::new();
    let mut i: usize = 0;
    let ghost all = values.deep_view();
    while i < values.len()
        invariant
            i <= values.len(),
            all == values.deep_view(),
            forall|k: int| 0 <= k < i ==> rtcp_fb_entry(#[trigger] all[k]) is Some,
            out.deep_view() =~= Seq::new(i as nat, |k: int| rtcp_fb_entry(all[k])->0),
        decreases values.len() - i,
    {
        proof {
            lemma_deep_view_index(*values, i as int);
            lemma_chars_deep_view(values@[i as int]);
        }
        match parse_rtcp_fb(&values[i]) {
            Some(entry) => {
                let ghost before = out;
                let ghost pushed = entry;
                out.push(entry);
                proof {
                    lemma_push_deep_view(before, out, pushed);
                }
            },
            None => {
                return None;
            },
        }
        i += 1;
    }
    assert(out.deep_view() =~= rtcp_fb_entries(all)->0);
    Some(out)
}

/// Whether one of `payload_types` has the given id.
pub fn has_id(payload_types: &Vec<PayloadType>, id: u8) -> (out: bool)
    ensures
        out == knows_id(payload_types.deep_view(), id),
{
    let mut i: usize = 0;
    let ghost all = payload_types.deep_view();
    while i < payload_types.len()
        invariant
            i <= payload_types.len(),
            all == payload_types.deep_view(),
            forall|k: int| 0 <= k < i ==> (#[trigger] all[k]).id != id,
        decreases payload_types.len() - i,
    {
        proof {
            lemma_deep_view_index(*payload_types, i as int);
        }
        if payload_types[i].id == id {
            return true;
        }
        i += 1;
    }
    false
}

/// Whether each entry of `fmtps` is for one of `payload_types`.
pub fn check_fmtps(payload_types: &Vec<PayloadType>, fmtps: &Vec<(u8, Vec<Parameter>)>) -> (out:
    bool)
    ensures
        out == fmtps_known(payload_types.deep_view(), fmtps.deep_view()),
{
    let mut j: usize = 0;
    let ghost all = fmtps.deep_view();
    while j < fmtps.len()
        invariant
            j <= fmtps.len(),
            all == fmtps.deep_view(),
            forall|k: int|
                0 <= k < j ==> knows_id(payload_types.deep_view(), (#[trigger] all[k]).0),
        decreases fmtps.len() - j,
    {
        proof {
            lemma_deep_view_index(*fmtps, j as int);
        }
        if !has_id(payload_types, fmtps[j].0) {
            return false;
        }
        j += 1;
    }
    true
}

/// Whether each entry of `feedbacks` is for one of `payload_types`.
pub fn check_feedbacks(payload_types: &Vec<PayloadType>, feedbacks: &Vec<(u8, RtcpFb)>) -> (out:
    bool)
    ensures
        out == feedbacks_known(payload_types.deep_view(), feedbacks.deep_view()),
{
    let mut j: usize = 0;
    let ghost all = feedbacks.deep_view();
    while j < feedbacks.len()
        invariant
            j <= feedbacks.len(),
            all == feedbacks.deep_view(),
            forall|k: int|
                0 <= k < j ==> knows_id(payload_types.deep_view(), (#[trigger] all[k]).0),
        decreases feedbacks.len() - j,
    {
        proof {
            lemma_deep_view_index(*feedbacks, j as int);
        }
        if !has_id(payload_types, feedbacks[j].0) {
            return false;
        }
        j += 1;
    }
    true
}

/// Appends copies of `parameters` to `out`.
pub fn append_parameters(out: &mut Vec<Parameter>, parameters: &Vec<Parameter>)
    ensures
        final(out).deep_view() == old(out).deep_view() + parameters.deep_view(),
{
    let mut i: usize = 0;
    let ghost start = out.deep_view();
    let ghost all = parameters.deep_view();
    assert(start + all.take(0) =~= start);
    while i < parameters.len()
        invariant
            i <= parameters.len(),
            all == parameters.deep_view(),
            out.deep_view() == start + all.take(i as int),
        decreases parameters.len() - i,
    {
        let copy = Parameter {
            name: parameters[i].name.clone(),
            value: parameters[i].value.clone(),
        };
        let ghost before = *out;
        let ghost pushed = copy;
        out.push(copy);
        proof {
            lemma_push_deep_view(before, *out, pushed);
            lemma_deep_view_index(*parameters, i as int);
            lemma_take_next(all, i as int);
            assert((start + all.take(i as int)).push(all[i as int]) =~= start + all.take(
                i as int,
            ).push(all[i as int]));
        }
        i += 1;
    }
    assert(all.take(parameters.len() as int) == all);
}

/// The parameters that `fmtps` give for the payload type `id`.
pub fn gather_parameters(id: u8, fmtps: &Vec<(u8, Vec<Parameter>)>) -> (out: Vec<Parameter>)
    ensures
        out.deep_view() == parameters_for(id, fmtps.deep_view()),
{
    let mut out: Vec<Parameter> = Vec::new();
    let mut j: usize = 0;
    let ghost all = fmtps.deep_view();
    proof {
        lemma_empty_deep_view(out);
    }
    while j < fmtps.len()
        invariant
            j <= fmtps.len(),
            all == fmtps.deep_view(),
            out.deep_view() == parameters_for(id, all.take(j as int)),
        decreases fmtps.len() - j,
    {
        proof {
            lemma_deep_view_index(*fmtps, j as int);
            assert(all.take(j + 1).drop_last() == all.take(j as int));
        }
        if fmtps[j].0 == id {
            append_parameters(&mut out, &fmtps[j].1);
        }
        j += 1;
    }
    assert(all.take(fmtps.len() as int) == all);
    out
}

/// The feedback entries that `feedbacks` give for the payload type `id`.
pub fn gather_feedback(id: u8, feedbacks: &Vec<(u8, RtcpFb)>) -> (out: Vec<RtcpFb>)
    ensures
        out.deep_view() == feedback_for(id, feedbacks.deep_view()),
{
    let mut out: Vec<RtcpFb> = Vec::new();
    let mut j: usize = 0;
    let ghost all = feedbacks.deep_view();
    proof {
        lemma_empty_deep_view(out);
    }
    while j < feedbacks.len()
        invariant
            j <= feedbacks.len(),
            all == feedbacks.deep_view(),
            out.deep_view() == feedback_for(id, all.take(j as int)),
        decreases feedbacks.len() - j,
    {
        proof {
            lemma_deep_view_index(*feedbacks, j as int);
            assert(all.take(j + 1).drop_last() == all.take(j as int));
        }
        if feedbacks[j].0 == id {
            let copy = RtcpFb {
                type_: feedbacks[j].1.type_.clone(),
                subtype: match &feedbacks[j].1.subtype {
                    Some(subtype) => Some(subtype.clone()),
                    None => None,
                },
            };
            let ghost before = out;
            let ghost pushed = copy;
            out.push(copy);
            proof {
                lemma_push_deep_view(before, out, pushed);
            }
        }
        j += 1;
    }
    assert(all.take(feedbacks.len() as int) == all);
    out
}

/// Reads the payload types that the attributes of a media block declare.
pub fn parse_payload_types(attributes: &Vec<Attribute>) -> (out: Option<Vec<PayloadType>>)
    ensures
        out.deep_view() == payload_types_of(attributes.deep_view()),
{
    let declared = match parse_rtpmaps(&values_for(attributes, "rtpmap")) {
        Some(declared) => declared,
        None => {
            return None;
        },
    };
    let fmtps = match parse_fmtps(&values_for(attributes, "fmtp")) {
        Some(fmtps) => fmtps,
        None => {
            return None;
        },
    };
    let feedbacks = match parse_rtcp_fbs(&values_for(attributes, "rtcp-fb")) {
        Some(feedbacks) => feedbacks,
        None => {
            return None;
        },
    };
    if !check_fmtps(&declared, &fmtps) || !check_feedbacks(&declared, &feedbacks) {
        return None;
    }
    let mut out: Vec<PayloadType> = Vec::new();
    let ghost bare = declared.deep_view();
    let ghost wanted = with_details(bare, fmtps.deep_view(), feedbacks.deep_view());
    let mut declared = declared;
    let mut i: usize = 0;
    let n = declared.len();
    while i < n
        invariant
            i <= n,
            n == declared.len(),
            n == bare.len(),
            wanted == with_details(bare, fmtps.deep_view(), feedbacks.deep_view()),
            forall|k: int| i <= k < n ==> (#[trigger] declared@[k])@ == bare[k],
            out.deep_view() =~= wanted.take(i as int),
        decreases n - i,
    {
        let id = declared[i].id;
        let parameters = gather_parameters(id, &fmtps);
        let rtcp_fbs = gather_feedback(id, &feedbacks);
        let entry = PayloadType {
            id,
            name: match &declared[i].name {
                Some(name) => Some(name.clone()),
                None => None,
            },
            clockrate: declared[i].clockrate,
            channels: declared[i].channels,
            ptime: declared[i].ptime,
            maxptime: declared[i].maxptime,
            parameters,
            rtcp_fbs,
        };
        let ghost before = out;
        let ghost pushed = entry;
        out.push(entry);
        proof {
            lemma_push_deep_view(before, out, pushed);
            lemma_take_next(wanted, i as int);
        }
        i += 1;
    }
    assert(wanted.take(n as int) == wanted);
    Some(out)
}

/// The header extension that the value of an `extmap` attribute declares:
/// `<id> <uri>`.
pub open spec fn extmap_entry(value: Seq<char>) -> Option<RtpHdrextView> {
    match (u16_from_text(head(value, ' ')), tail(value, ' ')) {
        (Some(id), Some(uri)) => Some(RtpHdrextView { id, uri }),
        _ => None,
    }
}

/// The header extensions that `extmap` values declare, if each of them declares one.
pub open spec fn extmap_entries(values: Seq<Seq<char>>) -> Option<Seq<RtpHdrextView>> {
    if forall|i: int| 0 <= i < values.len() ==> extmap_entry(#[trigger] values[i]) is Some {
        Some(Seq::new(values.len(), |i: int| extmap_entry(values[i])->0))
    } else {
        None
    }
}

/// Reads the value of an `extmap` attribute.
pub fn parse_extmap(value: &Vec<char>) -> (out: Option<RtpHdrext>)
    ensures
        out.deep_view() == extmap_entry(value@),
{
    let (id_text, rest) = head_tail_chars(value, ' ');
    match (parse_u16(&id_text), rest) {
        (Some(id), Some(uri)) => Some(RtpHdrext { id, uri: from_chars(&uri) }),
        _ => None,
    }
}

/// Reads `extmap` values.
pub fn parse_extmaps(values: &Vec<Vec<char>>) -> (out: Option<Vec<RtpHdrext>>)
    ensures
        out.deep_view() == extmap_entries(values.deep_view()),
{
    let mut out: Vec<RtpHdrext> = Vec::new();
    let mut i: usize = 0;
    let ghost all = values.deep_view();
    while i < values.len()
        invariant
            i <= values.len(),
            all == values.deep_view(),
            forall|k: int| 0 <= k < i ==> extmap_entry(#[trigger] all[k]) is Some,
            out.deep_view() =~= Seq::new(i as nat, |k: int| extmap_entry(all[k])->0),
        decreases values.len() - i,
    {
        proof {
            lemma_deep_view_index(*values, i as int);
            lemma_chars_deep_view(values@[i as int]);
        }
        match parse_extmap(&values[i]) {
            Some(entry) => {
                let ghost before = out;
                let ghost pushed = entry;
                out.push(entry);
                proof {
                    lemma_push_deep_view(before, out, pushed);
                }
            },
            None => {
                return None;
            },
        }
        i += 1;
    }
    assert(out.deep_view() =~= extmap_entries(all)->0);
    Some(out)
}

/// What follows the type of a candidate: the related address, the related
/// port and the generation.
pub struct CandidateExtras {
    pub rel_addr: Option<Seq<char>>,
    pub rel_port: Option<u16>,
    pub generation: u8,
}

/// One more name and value read after `before`. `raddr`, `rport` and
/// `generation` set their field; other names are passed over.
pub open spec fn with_extra(before: CandidateExtras, name: Seq<char>, value: Seq<char>) -> Option<
    CandidateExtras,
> {
    if name == "raddr"@ {
        Some(CandidateExtras { rel_addr: Some(value), ..before })
    } else if name == "rport"@ {
        match u16_from_text(value) {
            Some(port) => Some(CandidateExtras { rel_port: Some(port), ..before }),
            None => None,
        }
    } else if name == "generation"@ {
        match u8_from_text(value) {
            Some(generation) => Some(CandidateExtras { generation, ..before }),
            None => None,
        }
    } else {
        Some(before)
    }
}

/// What the tokens after the type of a candidate say, read as names each
/// followed by its value. Where a name occurs twice the later value stands;
/// the generation is 0 where none is given. `None` where a token is left
/// over or a number cannot be read.
pub open spec fn candidate_extras(tokens: Seq<Seq<char>>) -> Option<CandidateExtras>
    decreases tokens.len(),
{
    if tokens.len() == 0 {
        Some(CandidateExtras { rel_addr: None, rel_port: None, generation: 0 })
    } else if tokens.len() == 1 {
        None
    } else {
        match candidate_extras(tokens.take(tokens.len() - 2)) {
            Some(before) => with_extra(
                before,
                tokens[tokens.len() - 2],
                tokens[tokens.len() - 1],
            ),
            None => None,
        }
    }
}

/// Tokens that can be read as extras can be read so in each prefix of even length.
pub proof fn lemma_candidate_extras_prefix(tokens: Seq<Seq<char>>, k: int)
    requires
        0 <= k <= tokens.len(),
        (tokens.len() - k) % 2 == 0,
        candidate_extras(tokens) is Some,
    ensures
        candidate_extras(tokens.take(k)) is Some,
    decreases tokens.len(),
{
    if k == tokens.len() {
        assert(tokens.take(k) == tokens);
    } else {
        let shorter = tokens.take(tokens.len() - 2);
        lemma_candidate_extras_prefix(shorter, k);
        assert(shorter.take(k) == tokens.take(k));
    }
}

/// The candidate that the value of a `candidate` attribute describes:
/// `<foundation> <component> <protocol> <priority> <ip> <port> typ <type>`,
/// then names each followed by its value.
pub open spec fn candidate_entry(value: Seq<char>) -> Option<CandidateView> {
    let tokens = split(value, ' ');
    if tokens.len() < 8 || tokens[6] != "typ"@ {
        None
    } else {
        match (
            u8_from_text(tokens[1]),
            u32_from_text(tokens[3]),
            u16_from_text(tokens[5]),
            candidate_type_from_text(tokens[7]),
            candidate_extras(tokens.skip(8)),
        ) {
            (Some(component), Some(priority), Some(port), Some(type_), Some(extras)) => Some(
                CandidateView {
                    foundation: tokens[0],
                    component,
                    protocol: tokens[2],
                    priority,
                    ip: tokens[4],
                    port,
                    type_,
                    rel_addr: extras.rel_addr,
                    rel_port: extras.rel_port,
                    generation: extras.generation,
                },
            ),
            _ => None,
        }
    }
}

/// The candidates that `candidate` values describe, if each of them describes one.
pub open spec fn candidate_entries(values: Seq<Seq<char>>) -> Option<Seq<CandidateView>> {
    if forall|i: int| 0 <= i < values.len() ==> candidate_entry(#[trigger] values[i]) is Some {
        Some(Seq::new(values.len(), |i: int| candidate_entry(values[i])->0))
    } else {
        None
    }
}

/// Reads the value of a `candidate` attribute.
pub fn parse_candidate(value: &Vec<char>) -> (out: Option<Candidate>)
    ensures
        out.deep_view() == candidate_entry(value@),
{
    let tokens = split_chars(value, ' ');
    let ghost all = tokens.deep_view();
    if tokens.len() < 8 {
        return None;
    }
    proof {
        assert forall|k: int| 0 <= k < tokens.len() implies all[k] == (#[trigger] tokens@[k])@ by {
            lemma_deep_view_index(tokens, k);
            lemma_chars_deep_view(tokens@[k]);
        }
    }
    let marker = to_chars("typ");
    if !chars_eq(&tokens[6], &marker) {
        return None;
    }
    let component = match parse_u8(&tokens[1]) {
        Some(component) => component,
        None => {
            return None;
        },
    };
    let priority = match parse_u32(&tokens[3]) {
        Some(priority) => priority,
        None => {
            return None;
        },
    };
    let port = match parse_u16(&tokens[5]) {
        Some(port) => port,
        None => {
            return None;
        },
    };
    let kind_text = from_chars(&tokens[7]);
    let type_ = match parse_candidate_type(kind_text.as_str()) {
        Some(type_) => type_,
        None => {
            return None;
        },
    };
    let mut rel_addr: Option<String> = None;
    let mut rel_port: Option<u16> = None;
    let mut generation: u8 = 0;
    let ghost rest = all.skip(8);
    let mut i: usize = 8;
    proof {
        assert(rest.take(0).len() == 0);
    }
    while i + 1 < tokens.len()
        invariant
            8 <= i <= tokens.len(),
            all == tokens.deep_view(),
            all == split(value@, ' '),
            rest == all.skip(8),
            forall|k: int| 0 <= k < tokens.len() ==> all[k] == (#[trigger] tokens@[k])@,
            (i - 8) % 2 == 0,
            candidate_extras(rest.take(i - 8)) == Some(
                CandidateExtras { rel_addr: rel_addr.deep_view(), rel_port, generation },
            ),
        decreases tokens.len() - i,
    {
        let ghost longer = rest.take(i + 2 - 8);
        proof {
            assert(longer.take(longer.len() - 2) == rest.take(i - 8));
            assert(longer[longer.len() - 2] == tokens@[i as int]@);
            assert(longer[longer.len() - 1] == tokens@[i + 1]@);
        }
        let name = from_chars(&tokens[i]);
        if str_eq(name.as_str(), "raddr") {
            rel_addr = Some(from_chars(&tokens[i + 1]));
        } else if str_eq(name.as_str(), "rport") {
            match parse_u16(&tokens[i + 1]) {
                Some(port) => {
                    rel_port = Some(port);
                },
                None => {
                    proof {
                        lemma_candidate_extras_fail(rest, i + 2 - 8);
                    }
                    return None;
                },
            }
        } else if str_eq(name.as_str(), "generation") {
            match parse_u8(&tokens[i + 1]) {
                Some(n) => {
                    generation = n;
                },
                None => {
                    proof {
                        lemma_candidate_extras_fail(rest, i + 2 - 8);
                    }
                    return None;
                },
            }
        }
        i += 2;
    }
    if i < tokens.len() {
        proof {
            lemma_extras_odd(rest);
        }
        return None;
    }
    proof {
        assert(rest.take(i - 8) == rest);
    }
    Some(
        Candidate {
            foundation: from_chars(&tokens[0]),
            component,
            protocol: from_chars(&tokens[2]),
            priority,
            ip: from_chars(&tokens[4]),
            port,
            type_,
            rel_addr,
            rel_port,
            generation,
        },
    )
}

/// Tokens of which an even prefix cannot be read as extras cannot be read so.
pub proof fn lemma_candidate_extras_fail(tokens: Seq<Seq<char>>, k: int)
    requires
        0 <= k <= tokens.len(),
        k % 2 == 0,
        candidate_extras(tokens.take(k)) is None,
    ensures
        candidate_extras(tokens) is None,
{
    if tokens.len() % 2 == 1 {
        lemma_extras_odd(tokens);
    } else if candidate_extras(tokens) is Some {
        lemma_candidate_extras_prefix(tokens, k);
    }
}

/// An odd number of tokens cannot be read as names each followed by its value.
pub proof fn lemma_extras_odd(tokens: Seq<Seq<char>>)
    requires
        tokens.len() % 2 == 1,
    ensures
        candidate_extras(tokens) is None,
    decreases tokens.len(),
{
    if tokens.len() > 1 {
        lemma_extras_odd(tokens.take(tokens.len() - 2));
    }
}

/// Reads `candidate` values.
pub fn parse_candidates(values: &Vec<Vec<char>>) -> (out: Option<Vec<Candidate>>)
    ensures
        out.deep_view() == candidate_entries(values.deep_view()),
{
    let mut out: Vec<Candidate> = Vec::new();
    let mut i: usize = 0;
    let ghost all = values.deep_view();
    while i < values.len()
        invariant
            i <= values.len(),
            all == values.deep_view(),
            forall|k: int| 0 <= k < i ==> candidate_entry(#[trigger] all[k]) is Some,
            out.deep_view() =~= Seq::new(i as nat, |k: int| candidate_entry(all[k])->0),
        decreases values.len() - i,
    {
        proof {
            lemma_deep_view_index(*values, i as int);
            lemma_chars_deep_view(values@[i as int]);
        }
        match parse_candidate(&values[i]) {
            Some(entry) => {
                let ghost before = out;
                let ghost pushed = entry;
                out.push(entry);
                proof {
                    lemma_push_deep_view(before, out, pushed);
                }
            },
            None => {
                return None;
            },
        }
        i += 1;
    }
    assert(out.deep_view() =~= candidate_entries(all)->0);
    Some(out)
}

/// The DTLS role that the `setup` attribute of a media block names.
pub open spec fn setup_of(attributes: Seq<AttributeView>) -> Option<Setup> {
    match first_value(attributes, "setup"@) {
        Some(text) => setup_from_text(text),
        None => None,
    }
}

/// The fingerprint that the attributes of a media block give: none where
/// there is no `fingerprint` attribute, or its value holds no space; else the
/// hash function named before the first space, the bytes written after it,
/// and the role of the `setup` attribute. The outer `None` where there is a
/// fingerprint to read and its hash function, its bytes or the role cannot
/// be read.
pub open spec fn fingerprint_of(attributes: Seq<AttributeView>) -> Option<Option<FingerprintView>> {
    match first_value(attributes, "fingerprint"@) {
        None => Some(None),
        Some(text) => match split_once(text, ' ') {
            None => Some(None),
            Some((name, digits)) => match (
                setup_of(attributes),
                hash_from_name(name),
                bytes_from_colon_hex(digits),
            ) {
                (Some(setup), Some(hash), Some(value)) => Some(
                    Some(FingerprintView { hash, setup: Some(setup), value }),
                ),
                _ => None,
            },
        },
    }
}

/// The transport that the attributes of a media block describe.
pub open spec fn transport_of(attributes: Seq<AttributeView>) -> Option<TransportView> {
    match (candidate_entries(values_of(attributes, "candidate"@)), fingerprint_of(attributes)) {
        (Some(candidates), Some(fingerprint)) => Some(
            TransportView {
                pwd: first_value(attributes, "ice-pwd"@),
                ufrag: first_value(attributes, "ice-ufrag"@),
                candidates,
                fingerprint,
                web_socket: None,
            },
        ),
        _ => None,
    }
}

/// Reads the fingerprint of a media block.
pub fn parse_fingerprint(attributes: &Vec<Attribute>) -> (out: Option<Option<Fingerprint>>)
    ensures
        out.deep_view() == fingerprint_of(attributes.deep_view()),
{
    let text = match value_of(attributes, "fingerprint") {
        Some(text) => to_chars(text.as_str()),
        None => {
            return Some(None);
        },
    };
    let (name, digits) = match split_once_chars(&text, ' ') {
        Some(parts) => parts,
        None => {
            return Some(None);
        },
    };
    let setup = match value_of(attributes, "setup") {
        Some(text) => parse_setup(text.as_str()),
        None => None,
    };
    let name = from_chars(&name);
    match (setup, parse_hash_name(name.as_str()), parse_colon_hex(&digits)) {
        (Some(setup), Some(hash), Some(value)) => Some(
            Some(Fingerprint { hash, setup: Some(setup), value }),
        ),
        _ => None,
    }
}

/// Reads the transport of a media block.
pub fn parse_transport(attributes: &Vec<Attribute>) -> (out: Option<Transport>)
    ensures
        out.deep_view() == transport_of(attributes.deep_view()),
{
    let candidates = match parse_candidates(&values_for(attributes, "candidate")) {
        Some(candidates) => candidates,
        None => {
            return None;
        },
    };
    let fingerprint = match parse_fingerprint(attributes) {
        Some(fingerprint) => fingerprint,
        None => {
            return None;
        },
    };
    let pwd = match value_of(attributes, "ice-pwd") {
        Some(pwd) => Some(pwd.clone()),
        None => None,
    };
    let ufrag = match value_of(attributes, "ice-ufrag") {
        Some(ufrag) => Some(ufrag.clone()),
        None => None,
    };
    Some(Transport { pwd, ufrag, candidates, fingerprint, web_socket: None })
}

/// What the value of an `ssrc` attribute says: `<ssrc>[ <name>[:<value>]]`.
pub open spec fn ssrc_entry(value: Seq<char>) -> Option<(u32, Option<SourceParameterView>)> {
    match u32_from_text(head(value, ' ')) {
        Some(id) => Some(
            (
                id,
                match tail(value, ' ') {
                    Some(parameter) => Some(
                        SourceParameterView {
                            name: head(parameter, ':'),
                            value: tail(parameter, ':'),
                        },
                    ),
                    None => None,
                },
            ),
        ),
        None => None,
    }
}

/// The index of the first of `sources` with the given SSRC, or their number
/// where none has it.
pub open spec fn source_index(sources: Seq<SourceView>, id: u32) -> int
    decreases sources.len(),
{
    if sources.len() == 0 || sources[0].id == id {
        0
    } else {
        1 + source_index(sources.skip(1), id)
    }
}

/// `source_index` returns the first index that holds the SSRC.
pub proof fn lemma_source_index(sources: Seq<SourceView>, id: u32, at: int)
    requires
        0 <= at <= sources.len(),
        at < sources.len() ==> sources[at].id == id,
        forall|k: int| 0 <= k < at ==> (#[trigger] sources[k]).id != id,
    ensures
        source_index(sources, id) == at,
    decreases sources.len(),
{
    if sources.len() == 0 || sources[0].id == id {
    } else {
        let rest = sources.skip(1);
        assert forall|k: int| 0 <= k < at - 1 implies (#[trigger] rest[k]).id != id by {
            assert(rest[k] == sources[k + 1]);
        }
        lemma_source_index(rest, id, at - 1);
    }
}

/// `sources` after one more `ssrc` attribute for `id`: the source with that
/// SSRC gets the parameter, and is added last where there was none.
pub open spec fn with_parameter(
    sources: Seq<SourceView>,
    id: u32,
    parameter: Option<SourceParameterView>,
) -> Seq<SourceView> {
    let at = source_index(sources, id);
    if 0 <= at < sources.len() {
        match parameter {
            Some(p) => sources.update(
                at,
                SourceView { parameters: sources[at].parameters.push(p), ..sources[at] },
            ),
            None => sources,
        }
    } else {
        sources.push(
            SourceView {
                id,
                parameters: match parameter {
                    Some(p) => seq![p],
                    None => Seq::empty(),
                },
                owner: None,
            },
        )
    }
}

/// The sources that `ssrc` values describe, in the order in which their
/// SSRCs first occur.
pub open spec fn gathered_sources(values: Seq<Seq<char>>) -> Seq<SourceView>
    decreases values.len(),
{
    if values.len() == 0 {
        Seq::empty()
    } else {
        let before = gathered_sources(values.drop_last());
        match ssrc_entry(values.last()) {
            Some((id, parameter)) => with_parameter(before, id, parameter),
            None => before,
        }
    }
}

/// The sources of a media block, if each of its `ssrc` values can be read.
pub open spec fn block_sources(values: Seq<Seq<char>>) -> Option<Seq<SourceView>> {
    if forall|i: int| 0 <= i < values.len() ==> ssrc_entry(#[trigger] values[i]) is Some {
        Some(gathered_sources(values))
    } else {
        None
    }
}

/// Whether one of `parameters` has the given name.
pub open spec fn has_parameter(parameters: Seq<SourceParameterView>, name: Seq<char>) -> bool {
    exists|i: int| 0 <= i < parameters.len() && (#[trigger] parameters[i]).name == name
}

/// `source` with an `msid` parameter of the given value, unless it has a
/// parameter of that name.
pub open spec fn with_msid(source: SourceView, value: Option<Seq<char>>) -> SourceView {
    if has_parameter(source.parameters, "msid"@) {
        source
    } else {
        SourceView {
            parameters: source.parameters.push(SourceParameterView { name: "msid"@, value }),
            ..source
        }
    }
}

/// `sources`, each with the `msid` of its block where it has none of its own
/// and the block has an `msid` attribute.
pub open spec fn backfilled(sources: Seq<SourceView>, msid: Option<AttributeView>) -> Seq<
    SourceView,
> {
    match msid {
        Some(attribute) => Seq::new(sources.len(), |i: int| with_msid(sources[i], attribute.value)),
        None => sources,
    }
}

/// Reads the value of an `ssrc` attribute.
pub fn parse_ssrc(value: &Vec<char>) -> (out: Option<(u32, Option<SourceParameter>)>)
    ensures
        out.deep_view() == ssrc_entry(value@),
{
    let (id_text, rest) = head_tail_chars(value, ' ');
    let id = match parse_u32(&id_text) {
        Some(id) => id,
        None => {
            return None;
        },
    };
    let parameter = match rest {
        Some(parameter) => {
            let (name, value) = head_tail_chars(&parameter, ':');
            let value = match value {
                Some(value) => Some(from_chars(&value)),
                None => None,
            };
            Some(SourceParameter { name: from_chars(&name), value })
        },
        None => None,
    };
    Some((id, parameter))
}

/// Notes one more `ssrc` attribute for `id` in `sources`.
pub fn add_parameter(sources: &mut Vec<Source>, id: u32, parameter: Option<SourceParameter>)
    ensures
        final(sources).deep_view() == with_parameter(
            old(sources).deep_view(),
            id,
            parameter.deep_view(),
        ),
{
    let ghost start = sources.deep_view();
    let mut at: usize = 0;
    while at < sources.len() && sources[at].id != id
        invariant
            at <= sources.len(),
            start == sources.deep_view(),
            *sources == *old(sources),
            forall|k: int| 0 <= k < at ==> (#[trigger] start[k]).id != id,
        decreases sources.len() - at,
    {
        proof {
            lemma_deep_view_index(*sources, at as int);
        }
        at += 1;
    }
    proof {
        if at < sources.len() {
            lemma_deep_view_index(*sources, at as int);
        }
        lemma_source_index(start, id, at as int);
    }
    if at < sources.len() {
        match parameter {
            Some(p) => {
                let ghost before = sources[at as int].parameters;
                sources[at].parameters.push(p);
                proof {
                    lemma_push_deep_view(before, sources[at as int].parameters, p);
                }
            },
            None => {},
        }
        assert(sources.deep_view() =~= with_parameter(start, id, parameter.deep_view()));
    } else {
        let mut parameters: Vec<SourceParameter> = Vec::new();
        proof {
            lemma_empty_deep_view(parameters);
        }
        match parameter {
            Some(p) => {
                let ghost before = parameters;
                parameters.push(p);
                proof {
                    lemma_push_deep_view(before, parameters, p);
                }
            },
            None => {},
        }
        let source = Source { id, parameters, owner: None };
        let ghost before = *sources;
        sources.push(source);
        proof {
            lemma_push_deep_view(before, *sources, source);
        }
    }
}

/// Reads the sources that `ssrc` values describe.
pub fn parse_sources(values: &Vec<Vec<char>>) -> (out: Option<Vec<Source>>)
    ensures
        out.deep_view() == block_sources(values.deep_view()),
{
    let mut out: Vec<Source> = Vec::new();
    let mut i: usize = 0;
    let ghost all = values.deep_view();
    proof {
        lemma_empty_deep_view(out);
    }
    while i < values.len()
        invariant
            i <= values.len(),
            all == values.deep_view(),
            forall|k: int| 0 <= k < i ==> ssrc_entry(#[trigger] all[k]) is Some,
            out.deep_view() == gathered_sources(all.take(i as int)),
        decreases values.len() - i,
    {
        proof {
            lemma_deep_view_index(*values, i as int);
            lemma_chars_deep_view(values@[i as int]);
            assert(all.take(i + 1).drop_last() == all.take(i as int));
        }
        match parse_ssrc(&values[i]) {
            Some((id, parameter)) => {
                add_parameter(&mut out, id, parameter);
            },
            None => {
                return None;
            },
        }
        i += 1;
    }
    assert(all.take(values.len() as int) == all);
    Some(out)
}

/// Whether one of `parameters` is named `msid`.
pub fn has_msid(parameters: &Vec<SourceParameter>) -> (out: bool)
    ensures
        out == has_parameter(parameters.deep_view(), "msid"@),
{
    let mut i: usize = 0;
    let ghost all = parameters.deep_view();
    while i < parameters.len()
        invariant
            i <= parameters.len(),
            all == parameters.deep_view(),
            forall|k: int| 0 <= k < i ==> (#[trigger] all[k]).name != "msid"@,
        decreases parameters.len() - i,
    {
        proof {
            lemma_deep_view_index(*parameters, i as int);
        }
        if str_eq(parameters[i].name.as_str(), "msid") {
            return true;
        }
        i += 1;
    }
    false
}

/// Gives each of `sources` the `msid` of its block where it has none of its own.
pub fn backfill_msid(sources: &mut Vec<Source>, msid: Option<&Attribute>)
    ensures
        final(sources).deep_view() == backfilled(old(sources).deep_view(), msid.deep_view()),
{
    let attribute = match msid {
        Some(attribute) => attribute,
        None => {
            return ;
        },
    };
    let ghost start = sources.deep_view();
    let ghost wanted = backfilled(start, msid.deep_view());
    let mut i: usize = 0;
    while i < sources.len()
        invariant
            i <= sources.len(),
            sources.len() == start.len(),
            wanted == backfilled(start, Some(attribute@)),
            forall|k: int| 0 <= k < i ==> (#[trigger] sources@[k])@ == wanted[k],
            forall|k: int| i <= k < sources.len() ==> (#[trigger] sources@[k])@ == start[k],
        decreases sources.len() - i,
    {
        if !has_msid(&sources[i].parameters) {
            let parameter = SourceParameter {
                name: String::from_str("msid"),
                value: clone_text(&attribute.value),
            };
            let ghost before = sources[i as int].parameters;
            sources[i].parameters.push(parameter);
            proof {
                lemma_push_deep_view(before, sources[i as int].parameters, parameter);
            }
        }
        i += 1;
    }
    assert(sources.deep_view() =~= wanted);
}

/// The SSRCs that `tokens` denote, if each of them denotes one.
pub open spec fn source_ids(tokens: Seq<Seq<char>>) -> Option<Seq<u32>> {
    if forall|i: int| 0 <= i < tokens.len() ==> u32_from_text(#[trigger] tokens[i]) is Some {
        Some(Seq::new(tokens.len(), |i: int| u32_from_text(tokens[i])->0))
    } else {
        None
    }
}

/// The source group that the value of an `ssrc-group` attribute declares:
/// `<semantics>` and then the SSRCs of the members, each after one space.
pub open spec fn ssrc_group_entry(value: Seq<char>) -> Option<SourceGroupView> {
    let tokens = split(value, ' ');
    match (semantics_from_text(tokens[0]), source_ids(tokens.skip(1))) {
        (Some(semantics), Some(sources)) => Some(SourceGroupView { semantics, sources }),
        _ => None,
    }
}

/// The source groups that `ssrc-group` values declare, if each of them declares one.
pub open spec fn ssrc_group_entries(values: Seq<Seq<char>>) -> Option<Seq<SourceGroupView>> {
    if forall|i: int| 0 <= i < values.len() ==> ssrc_group_entry(#[trigger] values[i]) is Some {
        Some(Seq::new(values.len(), |i: int| ssrc_group_entry(values[i])->0))
    } else {
        None
    }
}

/// Reads the value of an `ssrc-group` attribute.
pub fn parse_ssrc_group(value: &Vec<char>) -> (out: Option<SourceGroup>)
    ensures
        out.deep_view() == ssrc_group_entry(value@),
{
    let tokens = split_chars(value, ' ');
    let ghost all = tokens.deep_view();
    proof {
        lemma_split_nonempty(value@, ' ');
        assert forall|k: int| 0 <= k < tokens.len() implies all[k] == (#[trigger] tokens@[k])@ by {
            lemma_deep_view_index(tokens, k);
            lemma_chars_deep_view(tokens@[k]);
        }
    }
    let name = from_chars(&tokens[0]);
    let semantics = match parse_semantics(name.as_str()) {
        Some(semantics) => semantics,
        None => {
            return None;
        },
    };
    let mut sources: Vec<u32> = Vec::new();
    let ghost rest = all.skip(1);
    let mut i: usize = 1;
    while i < tokens.len()
        invariant
            1 <= i <= tokens.len(),
            all == tokens.deep_view(),
            all == split(value@, ' '),
            rest == all.skip(1),
            forall|k: int| 0 <= k < tokens.len() ==> all[k] == (#[trigger] tokens@[k])@,
            forall|k: int| 0 <= k < i - 1 ==> u32_from_text(#[trigger] rest[k]) is Some,
            sources@ =~= Seq::new((i - 1) as nat, |k: int| u32_from_text(rest[k])->0),
        decreases tokens.len() - i,
    {
        proof {
            assert(rest[i - 1] == tokens@[i as int]@);
        }
        match parse_u32(&tokens[i]) {
            Some(id) => {
                sources.push(id);
            },
            None => {
                return None;
            },
        }
        i += 1;
    }
    assert(sources@ =~= source_ids(rest)->0);
    Some(SourceGroup { semantics, sources })
}

/// Reads `ssrc-group` values.
pub fn parse_ssrc_groups(values: &Vec<Vec<char>>) -> (out: Option<Vec<SourceGroup>>)
    ensures
        out.deep_view() == ssrc_group_entries(values.deep_view()),
{
    let mut out: Vec<SourceGroup> = Vec::new();
    let mut i: usize = 0;
    let ghost all = values.deep_view();
    while i < values.len()
        invariant
            i <= values.len(),
            all == values.deep_view(),
            forall|k: int| 0 <= k < i ==> ssrc_group_entry(#[trigger] all[k]) is Some,
            out.deep_view() =~= Seq::new(i as nat, |k: int| ssrc_group_entry(all[k])->0),
        decreases values.len() - i,
    {
        proof {
            lemma_deep_view_index(*values, i as int);
            lemma_chars_deep_view(values@[i as int]);
        }
        match parse_ssrc_group(&values[i]) {
            Some(entry) => {
                let ghost before = out;
                let ghost pushed = entry;
                out.push(entry);
                proof {
                    lemma_push_deep_view(before, out, pushed);
                }
            },
            None => {
                return None;
            },
        }
        i += 1;
    }
    assert(out.deep_view() =~= ssrc_group_entries(all)->0);
    Some(out)
}

/// Who sends in a content, by the direction attribute of its first block:
/// both for `sendrecv`, the responder for `sendonly`, the initiator for
/// `recvonly`, and neither where the block has none of the three.
pub open spec fn senders_of(attributes: Seq<AttributeView>) -> Senders {
    if has_key(attributes, "sendrecv"@) {
        Senders::Both
    } else if has_key(attributes, "sendonly"@) {
        Senders::Responder
    } else if has_key(attributes, "recvonly"@) {
        Senders::Initiator
    } else {
        Senders::Neither
    }
}

/// The SSRC that a description names as its own: the first token of the
/// first `ssrc` attribute, where that attribute has a value.
pub open spec fn description_ssrc(attributes: Seq<AttributeView>) -> Option<Seq<char>> {
    match first_value(attributes, "ssrc"@) {
        Some(value) => Some(head(value, ' ')),
        None => None,
    }
}

/// The content that a media block founds, without sources and source
/// groups: the responder's, named after the media type, with the codecs,
/// header extensions and transport of the block.
pub open spec fn template_content(block: MediaDescriptionView) -> Option<ContentView> {
    match (
        payload_types_of(block.attributes),
        extmap_entries(values_of(block.attributes, "extmap"@)),
        transport_of(block.attributes),
    ) {
        (Some(payload_types), Some(hdrexts), Some(transport)) => Some(
            ContentView {
                creator: Creator::Responder,
                name: block.media_name.media,
                senders: senders_of(block.attributes),
                description: Some(
                    RtpDescriptionView {
                        media: block.media_name.media,
                        ssrc: description_ssrc(block.attributes),
                        payload_types,
                        rtcp_mux: has_key(block.attributes, "rtcp-mux"@),
                        ssrc_groups: Seq::empty(),
                        ssrcs: Seq::empty(),
                        hdrexts,
                    },
                ),
                transport: Some(transport),
            },
        ),
        _ => None,
    }
}

/// The sources and source groups that a media block adds to its content.
pub open spec fn block_additions(attributes: Seq<AttributeView>) -> Option<
    (Seq<SourceView>, Seq<SourceGroupView>),
> {
    match (
        block_sources(values_of(attributes, "ssrc"@)),
        ssrc_group_entries(values_of(attributes, "ssrc-group"@)),
    ) {
        (Some(sources), Some(groups)) => Some(
            (backfilled(sources, first_with_key(attributes, "msid"@)), groups),
        ),
        _ => None,
    }
}

/// `content` with further sources and source groups after those it has.
pub open spec fn with_additions(
    content: ContentView,
    sources: Seq<SourceView>,
    groups: Seq<SourceGroupView>,
) -> ContentView {
    match content.description {
        Some(description) => ContentView {
            description: Some(
                RtpDescriptionView {
                    ssrcs: description.ssrcs + sources,
                    ssrc_groups: description.ssrc_groups + groups,
                    ..description
                },
            ),
            ..content
        },
        None => content,
    }
}

/// The index of the first of `contents` with the given name, or their number
/// where none has it.
pub open spec fn content_index(contents: Seq<ContentView>, name: Seq<char>) -> int
    decreases contents.len(),
{
    if contents.len() == 0 || contents[0].name == name {
        0
    } else {
        1 + content_index(contents.skip(1), name)
    }
}

/// `content_index` returns the first index that holds the name.
pub proof fn lemma_content_index(contents: Seq<ContentView>, name: Seq<char>, at: int)
    requires
        0 <= at <= contents.len(),
        at < contents.len() ==> contents[at].name == name,
        forall|k: int| 0 <= k < at ==> (#[trigger] contents[k]).name != name,
    ensures
        content_index(contents, name) == at,
    decreases contents.len(),
{
    if contents.len() == 0 || contents[0].name == name {
    } else {
        let rest = contents.skip(1);
        assert forall|k: int| 0 <= k < at - 1 implies (#[trigger] rest[k]).name != name by {
            assert(rest[k] == contents[k + 1]);
        }
        lemma_content_index(rest, name, at - 1);
    }
}

/// `contents` after one more media block: the content of the block's media
/// type, founded by this block where there was none, gets the block's
/// sources and source groups.
pub open spec fn absorb(contents: Seq<ContentView>, block: MediaDescriptionView) -> Option<
    Seq<ContentView>,
> {
    let at = content_index(contents, block.media_name.media);
    let held = if 0 <= at < contents.len() {
        Some(contents[at])
    } else {
        template_content(block)
    };
    match (held, block_additions(block.attributes)) {
        (Some(content), Some((sources, groups))) => {
            let grown = with_additions(content, sources, groups);
            if 0 <= at < contents.len() {
                Some(contents.update(at, grown))
            } else {
                Some(contents.push(grown))
            }
        },
        _ => None,
    }
}

/// The contents that media blocks fold into, one for each media type in the
/// order in which the types first occur.
pub open spec fn contents_of(blocks: Seq<MediaDescriptionView>) -> Option<Seq<ContentView>>
    decreases blocks.len(),
{
    if blocks.len() == 0 {
        Some(Seq::empty())
    } else {
        match contents_of(blocks.drop_last()) {
            Some(before) => absorb(before, blocks.last()),
            None => None,
        }
    }
}

/// Blocks of which a prefix cannot be folded cannot be folded.
pub proof fn lemma_contents_of_fail(blocks: Seq<MediaDescriptionView>, k: int)
    requires
        0 <= k <= blocks.len(),
        contents_of(blocks.take(k)) is None,
    ensures
        contents_of(blocks) is None,
    decreases blocks.len(),
{
    if k == blocks.len() {
        assert(blocks.take(k) == blocks);
    } else {
        assert(blocks.drop_last().take(k) == blocks.take(k));
        lemma_contents_of_fail(blocks.drop_last(), k);
    }
}

/// The names of `contents`, in order.
pub open spec fn content_names(contents: Seq<ContentView>) -> Seq<Seq<char>> {
    Seq::new(contents.len(), |i: int| contents[i].name)
}

/// The content group that the session attributes declare: none where there
/// is no `group` attribute with a value; else one of the semantics named
/// before the first space, over all of `contents`.
pub open spec fn bundle_of(attributes: Seq<AttributeView>, contents: Seq<ContentView>) -> Option<
    Option<GroupView>,
> {
    match first_value(attributes, "group"@) {
        None => Some(None),
        Some(text) => match group_semantics_from_text(head(text, ' ')) {
            Some(semantics) => Some(
                Some(GroupView { semantics, contents: content_names(contents) }),
            ),
            None => None,
        },
    }
}

/// The Jingle session that a session description stands for, given the
/// identities of the two parties as far as they could be read.
pub open spec fn jingle_of(
    sdp: SessionDescriptionView,
    action: Action,
    sid: Seq<char>,
    initiator: Option<Seq<char>>,
    responder: Option<Seq<char>>,
) -> Result<JingleView, Error> {
    match (initiator, responder) {
        (Some(initiator), Some(responder)) => match contents_of(sdp.media_descriptions) {
            Some(contents) => match bundle_of(sdp.attributes, contents) {
                Some(group) => Ok(
                    JingleView {
                        action,
                        initiator: Some(initiator),
                        responder: Some(responder),
                        sid,
                        contents,
                        group,
                    },
                ),
                None => Err(Error::InvalidSignalingDocument),
            },
            None => Err(Error::InvalidSignalingDocument),
        },
        _ => Err(Error::InvalidIdentity),
    }
}

/// Reads who sends in a content from the attributes of its first block.
pub fn parse_senders(attributes: &Vec<Attribute>) -> (out: Senders)
    ensures
        out == senders_of(attributes.deep_view()),
{
    if has_attribute(attributes, "sendrecv") {
        Senders::Both
    } else if has_attribute(attributes, "sendonly") {
        Senders::Responder
    } else if has_attribute(attributes, "recvonly") {
        Senders::Initiator
    } else {
        Senders::Neither
    }
}

/// Builds the content that a media block founds.
pub fn found_content(block: &MediaDescription) -> (out: Option<Content>)
    ensures
        out.deep_view() == template_content(block@),
{
    let payload_types = match parse_payload_types(&block.attributes) {
        Some(payload_types) => payload_types,
        None => {
            return None;
        },
    };
    let hdrexts = match parse_extmaps(&values_for(&block.attributes, "extmap")) {
        Some(hdrexts) => hdrexts,
        None => {
            return None;
        },
    };
    let transport = match parse_transport(&block.attributes) {
        Some(transport) => transport,
        None => {
            return None;
        },
    };
    let ssrc = match value_of(&block.attributes, "ssrc") {
        Some(value) => {
            let (first, _) = head_tail_chars(&to_chars(value.as_str()), ' ');
            Some(from_chars(&first))
        },
        None => None,
    };
    let description = RtpDescription {
        media: block.media_name.media.clone(),
        ssrc,
        payload_types,
        rtcp_mux: has_attribute(&block.attributes, "rtcp-mux"),
        ssrc_groups: Vec::new(),
        ssrcs: Vec::new(),
        hdrexts,
    };
    proof {
        lemma_empty_deep_view(description.ssrc_groups);
        lemma_empty_deep_view(description.ssrcs);
    }
    Some(
        Content {
            creator: Creator::Responder,
            name: block.media_name.media.clone(),
            senders: parse_senders(&block.attributes),
            description: Some(description),
            transport: Some(transport),
        },
    )
}

/// Reads the sources and source groups that a media block adds to its content.
pub fn parse_additions(attributes: &Vec<Attribute>) -> (out: Option<
    (Vec<Source>, Vec<SourceGroup>),
>)
    ensures
        out.deep_view() == block_additions(attributes.deep_view()),
{
    let mut sources = match parse_sources(&values_for(attributes, "ssrc")) {
        Some(sources) => sources,
        None => {
            return None;
        },
    };
    let groups = match parse_ssrc_groups(&values_for(attributes, "ssrc-group")) {
        Some(groups) => groups,
        None => {
            return None;
        },
    };
    let key = String::from_str("msid");
    backfill_msid(&mut sources, find_attribute(attributes, &key));
    Some((sources, groups))
}

/// Gives `content` further sources and source groups.
pub fn extend_content(content: &mut Content, sources: Vec<Source>, groups: Vec<SourceGroup>)
    ensures
        final(content)@ == with_additions(old(content)@, sources.deep_view(), groups.deep_view()),
{
    let mut sources = sources;
    let mut groups = groups;
    match &mut content.description {
        Some(description) => {
            let ghost held_sources = description.ssrcs;
            let ghost held_groups = description.ssrc_groups;
            let ghost new_sources = sources;
            let ghost new_groups = groups;
            description.ssrcs.append(&mut sources);
            description.ssrc_groups.append(&mut groups);
            proof {
                lemma_append_deep_view(held_sources, new_sources, description.ssrcs);
                lemma_append_deep_view(
                    held_groups,
                    new_groups,
                    description.ssrc_groups,
                );
            }
        },
        None => {},
    }
}

/// Folds one more media block into `contents`. Returns whether the block
/// could be read; `contents` is of no use where it could not.
pub fn absorb_block(contents: &mut Vec<Content>, block: &MediaDescription) -> (ok: bool)
    ensures
        ok == absorb(old(contents).deep_view(), block@) is Some,
        ok ==> absorb(old(contents).deep_view(), block@) == Some(final(contents).deep_view()),
{
    let ghost start = contents.deep_view();
    let mut at: usize = 0;
    while at < contents.len() && contents[at].name != block.media_name.media
        invariant
            at <= contents.len(),
            start == contents.deep_view(),
            *contents == *old(contents),
            forall|k: int| 0 <= k < at ==> (#[trigger] start[k]).name != block@.media_name.media,
        decreases contents.len() - at,
    {
        proof {
            lemma_deep_view_index(*contents, at as int);
        }
        at += 1;
    }
    proof {
        if at < contents.len() {
            lemma_deep_view_index(*contents, at as int);
        }
        lemma_content_index(start, block@.media_name.media, at as int);
    }
    if at < contents.len() {
        match parse_additions(&block.attributes) {
            Some((sources, groups)) => {
                extend_content(&mut contents[at], sources, groups);
                assert(contents.deep_view() =~= absorb(start, block@)->0);
                true
            },
            None => false,
        }
    } else {
        let mut content = match found_content(block) {
            Some(content) => content,
            None => {
                return false;
            },
        };
        match parse_additions(&block.attributes) {
            Some((sources, groups)) => {
                extend_content(&mut content, sources, groups);
                let ghost before = *contents;
                contents.push(content);
                proof {
                    lemma_push_deep_view(before, *contents, content);
                }
                true
            },
            None => false,
        }
    }
}

/// Folds media blocks into contents.
pub fn fold_blocks(blocks: &Vec<MediaDescription>) -> (out: Option<Vec<Content>>)
    ensures
        out.deep_view() == contents_of(blocks.deep_view()),
{
    let mut out: Vec<Content> = Vec::new();
    let mut i: usize = 0;
    let ghost all = blocks.deep_view();
    proof {
        lemma_empty_deep_view(out);
    }
    while i < blocks.len()
        invariant
            i <= blocks.len(),
            all == blocks.deep_view(),
            contents_of(all.take(i as int)) == Some(out.deep_view()),
        decreases blocks.len() - i,
    {
        proof {
            lemma_deep_view_index(*blocks, i as int);
            assert(all.take(i + 1).drop_last() == all.take(i as int));
        }
        if !absorb_block(&mut out, &blocks[i]) {
            proof {
                lemma_contents_of_fail(all, i + 1);
            }
            return None;
        }
        i += 1;
    }
    assert(all.take(blocks.len() as int) == all);
    Some(out)
}

/// Reads the content group that the session attributes declare.
pub fn parse_bundle(attributes: &Vec<Attribute>, contents: &Vec<Content>) -> (out: Option<
    Option<Group>,
>)
    ensures
        out.deep_view() == bundle_of(attributes.deep_view(), contents.deep_view()),
{
    let text = match value_of(attributes, "group") {
        Some(text) => to_chars(text.as_str()),
        None => {
            return Some(None);
        },
    };
    let (first, _) = head_tail_chars(&text, ' ');
    let name = from_chars(&first);
    let semantics = match parse_group_semantics(name.as_str()) {
        Some(semantics) => semantics,
        None => {
            return None;
        },
    };
    let mut names: Vec<String> = Vec::new();
    let mut i: usize = 0;
    let ghost all = contents.deep_view();
    while i < contents.len()
        invariant
            i <= contents.len(),
            all == contents.deep_view(),
            names.deep_view() =~= Seq::new(i as nat, |k: int| all[k].name),
        decreases contents.len() - i,
    {
        let name = contents[i].name.clone();
        let ghost before = names;
        let ghost pushed = name;
        names.push(name);
        proof {
            lemma_push_deep_view(before, names, pushed);
            lemma_deep_view_index(*contents, i as int);
        }
        i += 1;
    }
    assert(names.deep_view() =~= content_names(all));
    Some(Some(Group { semantics, contents: names }))
}

/// A conversion's outcome with the document, where there is one, as its view.
pub open spec fn jingle_result(out: Result<Jingle, Error>) -> Result<JingleView, Error> {
    match out {
        Ok(jingle) => Ok(jingle@),
        Err(e) => Err(e),
    }
}

impl SessionDescription {
    /// The Jingle session that this description stands for, between parties
    /// whose addresses have been read already: `None` stands for an address
    /// that could not be read.
    pub fn to_jingle_between(
        &self,
        action: Action,
        session_id: &str,
        initiator: Option<String>,
        responder: Option<String>,
    ) -> (out: Result<Jingle, Error>)
        ensures
            jingle_result(out) == jingle_of(
                self@,
                action,
                session_id@,
                initiator.deep_view(),
                responder.deep_view(),
            ),
    {
        let (initiator, responder) = match (initiator, responder) {
            (Some(initiator), Some(responder)) => (initiator, responder),
            _ => {
                return Err(Error::InvalidIdentity);
            },
        };
        let contents = match fold_blocks(&self.media_descriptions) {
            Some(contents) => contents,
            None => {
                return Err(Error::InvalidSignalingDocument);
            },
        };
        let group = match parse_bundle(&self.attributes, &contents) {
            Some(group) => group,
            None => {
                return Err(Error::InvalidSignalingDocument);
            },
        };
        Ok(
            Jingle {
                action,
                initiator: Some(initiator),
                responder: Some(responder),
                sid: String::from_str(session_id),
                contents,
                group,
            },
        )
    }

    /// The Jingle session that this description stands for.
    ///
    /// Fails with `InvalidIdentity` where the address of a party cannot be
    /// read, and else with `InvalidSignalingDocument` where the description
    /// cannot. The session holds the two addresses as they were given.
    pub fn try_to_jingle(
        &self,
        action: Action,
        session_id: &str,
        initiator: &str,
        responder: &str,
    ) -> (out: Result<Jingle, Error>)
        ensures
            jingle_result(out) == jingle_of(
                self@,
                action,
                session_id@,
                jid_text(initiator@),
                jid_text(responder@),
            ),
            out matches Ok(jingle) ==> jingle@.initiator == Some(initiator@) && jingle@.responder
                == Some(responder@),
    {
        self.to_jingle_between(action, session_id, read_jid(initiator), read_jid(responder))
    }
}

} // verus!

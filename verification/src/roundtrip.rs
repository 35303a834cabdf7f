//! What is written can be read again: the lines of a session description,
//! read by the decoder, give back what the encoder wrote them from.

use vstd::prelude::*;
use vstd::seq_lib::{
    lemma_multiset_commutative, to_multiset_build, to_multiset_contains, to_multiset_insert,
    to_multiset_len, to_multiset_remove,
};
use crate::decode::{
    absorb, backfilled, block_additions, block_sources, bundle_of, candidate_entry,
    candidate_extras, content_names, contents_of, extmap_entries, extmap_entry, feedback_for,
    feedbacks_known, fmtp_entries, fmtp_entry, fmtps_known, gathered_sources, has_parameter,
    jingle_of, knows_id, lemma_content_index, lemma_source_index, parameters_for, parameters_of,
    payload_types_of, rtcp_fb_entries, rtcp_fb_entry, rtpmap_entries, rtpmap_entry, setup_of,
    source_ids, ssrc_entry, ssrc_group_entries, ssrc_group_entry, template_content, transport_of,
    u16_from_text, u32_from_text, u8_from_text, with_additions, with_details, with_msid,
    with_parameter, CandidateExtras,
};
use crate::description::{
    first_value, first_with_key, property, valued, values_of, AttributeView, MediaDescriptionView,
    OriginView,
};
use crate::encode::{
    block_attributes, blocks_of, candidate_head, candidate_lines, candidate_text, codec_attributes,
    codec_lines, codecs_complete, content_blocks, content_extmaps, content_extmaps_sound,
    content_sound, contents_sound, credential_lines, defect_of, direction_of, extmap_lines,
    extmap_text, extmaps_sound, feedback_text, fingerprint_lines, fingerprint_supported,
    fingerprint_text, identity_attributes, leading_lines, media_block, mids, msid_of,
    parameter_text, parameters_text, related_text, rtpmap_text, session_lines, session_of,
    setup_lines, source_lines, ssrc_group_text, ssrc_lines, ssrc_text, trailing_lines,
    transport_lines,
};
use crate::error::Error;
use crate::grouping::{declared, grouped, in_some_group, is_mixed, kept, members, ungrouped};
use crate::jingle::{
    Action, AlgoView, CandidateType, CandidateView, ContentView, GroupSemantics, GroupView,
    JingleView, ParameterView, PayloadTypeView, RtcpFbView, RtpDescriptionView, RtpHdrextView,
    Semantics, Setup, SourceGroupView, SourceParameterView, SourceView, TransportView,
};
use crate::laws::{
    all_members, distinct_ssrcs, lemma_entry_of, lemma_every_source_once, lemma_group_ids_distinct,
    lemma_hash_names, lemma_members_within, lemma_some_group, named_ids,
};
use crate::names::{
    candidate_type_from_text, candidate_type_text, group_semantics_from_text, group_semantics_text,
    hash_from_name, hash_name, semantics_from_text, semantics_text, setup_from_text, setup_text,
};
use crate::text::{
    all_digits, byte_from_hex, bytes_from_colon_hex, bytes_from_pairs, colon_hex, decimal,
    digit_char, digit_value, digits_nat, find, head, hex_digit_char, hex_digit_value, hex_pair,
    hex_pairs, join, lemma_find_is, split, split_once, tail, unsigned_from_text,
};

verus! {

/// Whether `text` holds the character `c` nowhere.
pub open spec fn free_of(text: Seq<char>, c: char) -> bool {
    forall|i: int| 0 <= i < text.len() ==> text[i] != c
}

/// A decimal numeral is made of digits, of one at least, and denotes its number.
pub proof fn lemma_decimal(n: nat)
    ensures
        decimal(n).len() >= 1,
        all_digits(decimal(n)),
        digits_nat(decimal(n)) == n,
    decreases n,
{
    if n >= 10 {
        lemma_decimal(n / 10);
        let before = decimal(n / 10);
        let all = decimal(n);
        assert(all.drop_last() == before);
        assert(all.last() == digit_char(n % 10));
        assert(digit_value(digit_char(n % 10)) == Some(n % 10));
        assert forall|i: int| 0 <= i < all.len() implies digit_value(#[trigger] all[i]) is Some by {
            if i < before.len() {
                assert(all[i] == before[i]);
            }
        }
    } else {
        assert(digit_value(digit_char(n)) == Some(n));
        assert(decimal(n).drop_last() =~= Seq::<char>::empty());
        assert(digits_nat(decimal(n).drop_last()) == 0);
    }
}

/// A decimal numeral holds no character that is no digit.
pub proof fn lemma_decimal_free_of(n: nat, c: char)
    requires
        digit_value(c) is None,
    ensures
        free_of(decimal(n), c),
        find(decimal(n), c) == decimal(n).len(),
{
    lemma_decimal(n);
    assert forall|i: int| 0 <= i < decimal(n).len() implies decimal(n)[i] != c by {
        assert(digit_value(decimal(n)[i]) is Some);
    }
    lemma_find_is(decimal(n), c, decimal(n).len() as int);
}

/// The decimal numeral of a number is read as that number, where it is not
/// above the bound.
pub proof fn lemma_decimal_read(n: nat, max: nat)
    requires
        n <= max,
    ensures
        unsigned_from_text(decimal(n), max) == Some(n),
{
    lemma_decimal(n);
    assert(decimal(n)[0] != '+') by {
        assert(digit_value(decimal(n)[0]) is Some);
    }
}

/// A text without `c`, then `c`, then more: the first `c` is the one between.
pub proof fn lemma_cut(before: Seq<char>, c: char, after: Seq<char>)
    requires
        free_of(before, c),
    ensures
        find(before + seq![c] + after, c) == before.len(),
        head(before + seq![c] + after, c) == before,
        tail(before + seq![c] + after, c) == Some(after),
        split_once(before + seq![c] + after, c) == Some((before, after)),
{
    let all = before + seq![c] + after;
    lemma_find_is(all, c, before.len() as int);
    assert(all.take(before.len() as int) =~= before);
    assert(all.skip(before.len() as int + 1) =~= after);
}

/// A text without `c` is its own head and has no tail.
pub proof fn lemma_uncut(text: Seq<char>, c: char)
    requires
        free_of(text, c),
    ensures
        find(text, c) == text.len(),
        head(text, c) == text,
        tail(text, c) is None,
        split_once(text, c) is None,
        split(text, c) == seq![text],
{
    lemma_find_is(text, c, text.len() as int);
    assert(text.take(text.len() as int) =~= text);
}

/// Joined texts begin with the first of them; the others follow, each after
/// the separator.
pub proof fn lemma_join_front(parts: Seq<Seq<char>>, sep: Seq<char>)
    requires
        parts.len() >= 2,
    ensures
        join(parts, sep) == parts[0] + sep + join(parts.skip(1), sep),
    decreases parts.len(),
{
    let rest = parts.skip(1);
    if parts.len() == 2 {
        assert(parts.drop_last() =~= seq![parts[0]]);
        assert(rest =~= seq![parts[1]]);
        assert(join(parts.drop_last(), sep) == parts[0]);
        assert(join(rest, sep) == parts[1]);
    } else {
        lemma_join_front(parts.drop_last(), sep);
        assert(parts.drop_last().skip(1) =~= rest.drop_last());
        assert(rest.last() == parts.last());
        assert(parts.drop_last()[0] == parts[0]);
        assert(join(parts, sep) =~= parts[0] + sep + join(rest, sep));
    }
}

/// Texts without `c`, of which there is one at least, joined by `c` and cut
/// at every `c`, are the texts again.
pub proof fn lemma_split_join(parts: Seq<Seq<char>>, c: char)
    requires
        parts.len() >= 1,
        forall|i: int| 0 <= i < parts.len() ==> free_of(#[trigger] parts[i], c),
    ensures
        split(join(parts, seq![c]), c) == parts,
    decreases parts.len(),
{
    if parts.len() == 1 {
        lemma_uncut(parts[0], c);
        assert(parts =~= seq![parts[0]]);
    } else {
        let rest = parts.skip(1);
        lemma_join_front(parts, seq![c]);
        assert forall|i: int| 0 <= i < rest.len() implies free_of(#[trigger] rest[i], c) by {
            assert(rest[i] == parts[i + 1]);
        }
        lemma_split_join(rest, c);
        lemma_cut(parts[0], c, join(rest, seq![c]));
        assert(seq![parts[0]] + rest =~= parts);
    }
}

/// The marks that part the fields of a line, each as the one character it is.
pub proof fn lemma_marks()
    ensures
        " "@ == seq![' '],
        "/"@ == seq!['/'],
        ";"@ == seq![';'],
        "="@ == seq!['='],
        ":"@ == seq![':'],
{
    reveal_strlit(" ");
    reveal_strlit("/");
    reveal_strlit(";");
    reveal_strlit("=");
    reveal_strlit(":");
    assert(" "@ =~= seq![' ']);
    assert("/"@ =~= seq!['/']);
    assert(";"@ =~= seq![';']);
    assert("="@ =~= seq!['=']);
    assert(":"@ =~= seq![':']);
}

/// The numeral of an eight-bit, sixteen-bit or thirty-two-bit number is
/// read as that number.
pub proof fn lemma_numbers_read(a: u8, b: u16, c: u32)
    ensures
        u8_from_text(decimal(a as nat)) == Some(a),
        u16_from_text(decimal(b as nat)) == Some(b),
        u32_from_text(decimal(c as nat)) == Some(c),
{
    lemma_decimal_read(a as nat, 0xff);
    lemma_decimal_read(b as nat, 0xffff);
    lemma_decimal_read(c as nat, 0xffff_ffff);
}

/// Whether the `rtpmap` line that is written for a payload type can be
/// read: it has a name, which holds no `/`, and a clock rate.
pub open spec fn codec_readable(payload_type: PayloadTypeView) -> bool {
    &&& payload_type.name matches Some(name) && free_of(name, '/')
    &&& payload_type.clockrate is Some
}

/// A payload type as the lines say it: with one channel where it has none,
/// and without packet times, which no line carries.
pub open spec fn as_read(payload_type: PayloadTypeView) -> PayloadTypeView {
    PayloadTypeView {
        channels: if payload_type.channels == 0 {
            1u8
        } else {
            payload_type.channels
        },
        ptime: None,
        maxptime: None,
        ..payload_type
    }
}

/// Payload types as the lines say them.
pub open spec fn all_as_read(payload_types: Seq<PayloadTypeView>) -> Seq<PayloadTypeView> {
    Seq::new(payload_types.len(), |i: int| as_read(payload_types[i]))
}

/// The `rtpmap` line of a payload type is read as the payload type as the
/// lines say it, without its parameters and feedback entries.
pub proof fn lemma_rtpmap_read(payload_type: PayloadTypeView)
    requires
        codec_readable(payload_type),
    ensures
        rtpmap_entry(
            rtpmap_text(
                payload_type.id,
                payload_type.name->0,
                payload_type.clockrate->0,
                payload_type.channels,
            ),
        ) == Some(
            PayloadTypeView {
                parameters: Seq::empty(),
                rtcp_fbs: Seq::empty(),
                ..as_read(payload_type)
            },
        ),
{
    lemma_marks();
    let id = decimal(payload_type.id as nat);
    let name = payload_type.name->0;
    let clock = decimal(payload_type.clockrate->0 as nat);
    let channels = decimal(payload_type.channels as nat);
    let value = rtpmap_text(
        payload_type.id,
        name,
        payload_type.clockrate->0,
        payload_type.channels,
    );
    lemma_numbers_read(payload_type.id, 0, payload_type.clockrate->0);
    lemma_numbers_read(payload_type.channels, 0, 0);
    lemma_decimal_free_of(payload_type.id as nat, ' ');
    lemma_decimal_free_of(payload_type.clockrate->0 as nat, '/');
    lemma_decimal_free_of(payload_type.channels as nat, '/');
    let parts = if payload_type.channels >= 2 {
        seq![name, clock, channels]
    } else {
        seq![name, clock]
    };
    let codec = join(parts, seq!['/']);
    assert(seq![name, clock].drop_last() =~= seq![name]);
    assert(seq![name, clock, channels].drop_last() =~= seq![name, clock]);
    assert(join(seq![name], seq!['/']) == name);
    assert(join(seq![name, clock], seq!['/']) == name + seq!['/'] + clock);
    assert(value =~= id + seq![' '] + codec);
    lemma_cut(id, ' ', codec);
    assert forall|i: int| 0 <= i < parts.len() implies free_of(#[trigger] parts[i], '/') by {}
    lemma_split_join(parts, '/');
}

/// Whether a parameter of a payload type is read again as it is from the
/// `fmtp` line: it has a name, which holds neither `=` nor `;`, and its
/// value holds no `;`.
pub open spec fn parameter_plain(parameter: ParameterView) -> bool {
    &&& parameter.name.len() > 0
    &&& free_of(parameter.name, '=')
    &&& free_of(parameter.name, ';')
    &&& free_of(parameter.value, ';')
}

/// Whether each of `parameters` is read again as it is.
pub open spec fn parameters_plain(parameters: Seq<ParameterView>) -> bool {
    forall|i: int| 0 <= i < parameters.len() ==> parameter_plain(#[trigger] parameters[i])
}

/// The texts of parameters, one for each.
pub open spec fn parameter_texts(parameters: Seq<ParameterView>) -> Seq<Seq<char>> {
    Seq::new(parameters.len(), |i: int| parameter_text(parameters[i]))
}

/// The texts of parameters are read as the parameters.
pub proof fn lemma_parameters_read(parameters: Seq<ParameterView>)
    requires
        parameters_plain(parameters),
    ensures
        parameters_of(parameter_texts(parameters)) == parameters,
        forall|i: int|
            0 <= i < parameters.len() ==> free_of(#[trigger] parameter_texts(parameters)[i], ';'),
    decreases parameters.len(),
{
    lemma_marks();
    let texts = parameter_texts(parameters);
    if parameters.len() > 0 {
        let before = parameters.drop_last();
        let last = parameters.last();
        assert(parameters_plain(before)) by {
            assert forall|i: int| 0 <= i < before.len() implies parameter_plain(
                #[trigger] before[i],
            ) by {
                assert(before[i] == parameters[i]);
            }
        }
        lemma_parameters_read(before);
        assert(texts.drop_last() =~= parameter_texts(before));
        assert(parameter_plain(last));
        assert(texts.last() =~= last.name + seq!['='] + last.value);
        lemma_cut(last.name, '=', last.value);
        assert(parameters_of(texts) =~= parameters);
    } else {
        assert(parameters_of(texts) =~= parameters);
    }
    assert forall|i: int| 0 <= i < parameters.len() implies free_of(#[trigger] texts[i], ';') by {
        let p = parameters[i];
        assert(parameter_plain(p));
        assert(texts[i] =~= p.name + seq!['='] + p.value);
    }
}

/// The `fmtp` line of a payload type with parameters is read as its id and
/// its parameters.
pub proof fn lemma_fmtp_read(id: u8, parameters: Seq<ParameterView>)
    requires
        parameters.len() > 0,
        parameters_plain(parameters),
    ensures
        parameters_text(parameters).len() > 0,
        fmtp_entry(decimal(id as nat) + " "@ + parameters_text(parameters)) == Some(
            (id, parameters),
        ),
{
    lemma_marks();
    let texts = parameter_texts(parameters);
    let text = parameters_text(parameters);
    lemma_parameters_read(parameters);
    lemma_split_join(texts, ';');
    lemma_numbers_read(id, 0, 0);
    lemma_decimal_free_of(id as nat, ' ');
    lemma_cut(decimal(id as nat), ' ', text);
    assert(text.len() > 0) by {
        assert(parameter_plain(parameters[0]));
        if parameters.len() == 1 {
            assert(join(texts, seq![';']) == texts[0]);
        } else {
            lemma_join_front(texts, seq![';']);
        }
        assert(texts[0] =~= parameters[0].name + seq!['='] + parameters[0].value);
    }
}

/// The `rtcp-fb` line of a feedback entry whose type holds no space is read
/// as the id and the entry.
pub proof fn lemma_feedback_read(id: u8, feedback: RtcpFbView)
    requires
        free_of(feedback.type_, ' '),
    ensures
        rtcp_fb_entry(feedback_text(id, feedback)) == Some((id, feedback)),
{
    lemma_marks();
    lemma_numbers_read(id, 0, 0);
    lemma_decimal_free_of(id as nat, ' ');
    let number = decimal(id as nat);
    match feedback.subtype {
        Some(subtype) => {
            let rest = feedback.type_ + seq![' '] + subtype;
            assert(feedback_text(id, feedback) =~= number + seq![' '] + rest);
            lemma_cut(number, ' ', rest);
            lemma_cut(feedback.type_, ' ', subtype);
        },
        None => {
            assert(feedback_text(id, feedback) =~= number + seq![' '] + feedback.type_);
            lemma_cut(number, ' ', feedback.type_);
            lemma_uncut(feedback.type_, ' ');
        },
    }
}

/// The `ssrc` line of a parameter of a source, whose name holds no colon,
/// is read as the SSRC and the parameter.
pub proof fn lemma_ssrc_read(id: u32, parameter: SourceParameterView)
    requires
        free_of(parameter.name, ':'),
    ensures
        ssrc_entry(ssrc_text(id, parameter)) == Some((id, Some(parameter))),
{
    lemma_marks();
    lemma_numbers_read(0, 0, id);
    lemma_decimal_free_of(id as nat, ' ');
    let number = decimal(id as nat);
    match parameter.value {
        Some(value) => {
            let rest = parameter.name + seq![':'] + value;
            assert(ssrc_text(id, parameter) =~= number + seq![' '] + rest);
            lemma_cut(number, ' ', rest);
            lemma_cut(parameter.name, ':', value);
        },
        None => {
            assert(ssrc_text(id, parameter) =~= number + seq![' '] + parameter.name);
            lemma_cut(number, ' ', parameter.name);
            lemma_uncut(parameter.name, ':');
        },
    }
}

/// The token of a source group's semantics holds no space, and is read as
/// the semantics.
pub proof fn lemma_semantics_read(semantics: Semantics)
    ensures
        free_of(semantics_text(semantics), ' '),
        semantics_from_text(semantics_text(semantics)) == Some(semantics),
{
    reveal_strlit("LS");
    reveal_strlit("FID");
    reveal_strlit("SRF");
    reveal_strlit("ANAT");
    reveal_strlit("FEC");
    reveal_strlit("DDP");
    reveal_strlit("SIM");
    assert("LS"@.len() == 2 && "ANAT"@.len() == 4);
    assert("FID"@[0] == 'F' && "FID"@[1] == 'I');
    assert("FEC"@[0] == 'F' && "FEC"@[1] == 'E');
    assert("SRF"@[0] == 'S' && "SRF"@[1] == 'R');
    assert("SIM"@[0] == 'S' && "SIM"@[1] == 'I');
    assert("DDP"@[0] == 'D');
}

/// The numerals of SSRCs.
pub open spec fn ssrc_numerals(ids: Seq<u32>) -> Seq<Seq<char>> {
    Seq::new(ids.len(), |i: int| decimal(ids[i] as nat))
}

/// The `ssrc-group` line of a source group with a member at least is read
/// as the group.
pub proof fn lemma_ssrc_group_read(group: SourceGroupView)
    requires
        group.sources.len() > 0,
    ensures
        ssrc_group_entry(ssrc_group_text(group)) == Some(group),
{
    lemma_marks();
    lemma_semantics_read(group.semantics);
    let name = semantics_text(group.semantics);
    let numerals = ssrc_numerals(group.sources);
    let rest = join(numerals, seq![' ']);
    assert forall|i: int| 0 <= i < numerals.len() implies free_of(#[trigger] numerals[i], ' ') by {
        lemma_decimal_free_of(group.sources[i] as nat, ' ');
    }
    lemma_split_join(numerals, ' ');
    lemma_cut(name, ' ', rest);
    let tokens = split(ssrc_group_text(group), ' ');
    assert(ssrc_group_text(group) =~= name + seq![' '] + rest);
    assert(tokens == seq![name] + numerals);
    assert(tokens.skip(1) =~= numerals);
    assert forall|i: int| 0 <= i < numerals.len() implies u32_from_text(#[trigger] numerals[i])
        == Some(group.sources[i]) by {
        lemma_numbers_read(0, 0, group.sources[i]);
    }
    assert(source_ids(numerals)->0 =~= group.sources);
}

/// The two digits of a byte denote the byte.
pub proof fn lemma_hex_pair_read(b: u8)
    ensures
        byte_from_hex(hex_pair(b)) == Some(b),
        free_of(hex_pair(b), ':'),
{
    let high = b as nat / 16;
    let low = b as nat % 16;
    assert(hex_digit_value(hex_digit_char(high)) == Some(high));
    assert(hex_digit_value(hex_digit_char(low)) == Some(low));
    assert(hex_digit_char(high) != ':');
    assert(hex_digit_char(low) != ':');
}

/// The digit pairs of bytes denote the bytes.
pub proof fn lemma_hex_pairs_read(bytes: Seq<u8>)
    ensures
        bytes_from_pairs(hex_pairs(bytes)) == Some(bytes),
        hex_pairs(bytes).len() == bytes.len(),
        forall|i: int| 0 <= i < bytes.len() ==> free_of(#[trigger] hex_pairs(bytes)[i], ':'),
        forall|i: int| 0 <= i < bytes.len() ==> (#[trigger] hex_pairs(bytes)[i]).len() == 2,
    decreases bytes.len(),
{
    if bytes.len() > 0 {
        lemma_hex_pairs_read(bytes.drop_last());
        lemma_hex_pair_read(bytes.last());
        let pairs = hex_pairs(bytes);
        assert(pairs.drop_last() == hex_pairs(bytes.drop_last()));
        assert(bytes.drop_last().push(bytes.last()) =~= bytes);
        assert forall|i: int| 0 <= i < bytes.len() implies free_of(#[trigger] pairs[i], ':')
            && pairs[i].len() == 2 by {
            if i < bytes.len() - 1 {
                assert(pairs[i] == hex_pairs(bytes.drop_last())[i]);
            }
        }
    }
}

/// Bytes written as colon-separated digit pairs are read as the bytes.
pub proof fn lemma_colon_hex_read(bytes: Seq<u8>)
    ensures
        bytes_from_colon_hex(colon_hex(bytes)) == Some(bytes),
{
    lemma_marks();
    lemma_hex_pairs_read(bytes);
    let pairs = hex_pairs(bytes);
    if bytes.len() == 0 {
        assert(bytes =~= Seq::<u8>::empty());
    } else {
        lemma_split_join(pairs, ':');
        assert(colon_hex(bytes).len() > 0) by {
            assert(pairs[0].len() == 2);
            if pairs.len() == 1 {
                assert(join(pairs, seq![':']) == pairs[0]);
            } else {
                lemma_join_front(pairs, seq![':']);
            }
        }
    }
}

/// The place of a key among the keys that the encoder writes in a media
/// block, in the order in which it writes them; one more than the last for
/// any other key.
pub open spec fn key_rank(key: Seq<char>) -> nat {
    if key == "rtpmap"@ {
        0
    } else if key == "fmtp"@ {
        1
    } else if key == "rtcp-fb"@ {
        2
    } else if key == "rtcp"@ {
        3
    } else if key == "extmap"@ {
        4
    } else if key == "setup"@ {
        5
    } else if key == "mid"@ {
        6
    } else if key == "msid"@ {
        7
    } else if key == "sendrecv"@ {
        8
    } else if key == "sendonly"@ {
        9
    } else if key == "recvonly"@ {
        10
    } else if key == "ssrc"@ {
        11
    } else if key == "ssrc-group"@ {
        12
    } else if key == "ice-ufrag"@ {
        13
    } else if key == "ice-pwd"@ {
        14
    } else if key == "fingerprint"@ {
        15
    } else if key == "candidate"@ {
        16
    } else if key == "rtcp-mux"@ {
        17
    } else {
        18
    }
}

/// The keys that the encoder writes in a media block differ from each other.
pub proof fn lemma_key_ranks()
    ensures
        key_rank("rtpmap"@) == 0,
        key_rank("fmtp"@) == 1,
        key_rank("rtcp-fb"@) == 2,
        key_rank("rtcp"@) == 3,
        key_rank("extmap"@) == 4,
        key_rank("setup"@) == 5,
        key_rank("mid"@) == 6,
        key_rank("msid"@) == 7,
        key_rank("sendrecv"@) == 8,
        key_rank("sendonly"@) == 9,
        key_rank("recvonly"@) == 10,
        key_rank("ssrc"@) == 11,
        key_rank("ssrc-group"@) == 12,
        key_rank("ice-ufrag"@) == 13,
        key_rank("ice-pwd"@) == 14,
        key_rank("fingerprint"@) == 15,
        key_rank("candidate"@) == 16,
        key_rank("rtcp-mux"@) == 17,
{
    reveal_strlit("rtpmap");
    reveal_strlit("fmtp");
    reveal_strlit("rtcp-fb");
    reveal_strlit("rtcp");
    reveal_strlit("extmap");
    reveal_strlit("setup");
    reveal_strlit("mid");
    reveal_strlit("msid");
    reveal_strlit("sendrecv");
    reveal_strlit("sendonly");
    reveal_strlit("recvonly");
    reveal_strlit("ssrc");
    reveal_strlit("ssrc-group");
    reveal_strlit("ice-ufrag");
    reveal_strlit("ice-pwd");
    reveal_strlit("fingerprint");
    reveal_strlit("candidate");
    reveal_strlit("rtcp-mux");
    assert("rtpmap"@.len() == 6);
    assert("fmtp"@.len() == 4);
    assert("rtcp-fb"@.len() == 7);
    assert("rtcp"@.len() == 4);
    assert("extmap"@.len() == 6);
    assert("setup"@.len() == 5);
    assert("mid"@.len() == 3);
    assert("msid"@.len() == 4);
    assert("sendrecv"@.len() == 8);
    assert("sendonly"@.len() == 8);
    assert("recvonly"@.len() == 8);
    assert("ssrc"@.len() == 4);
    assert("ssrc-group"@.len() == 10);
    assert("ice-ufrag"@.len() == 9);
    assert("ice-pwd"@.len() == 7);
    assert("fingerprint"@.len() == 11);
    assert("candidate"@.len() == 9);
    assert("rtcp-mux"@.len() == 8);
    assert("fmtp"@[0] == 'f' && "rtcp"@[0] == 'r' && "msid"@[0] == 'm' && "ssrc"@[0] == 's');
    assert("rtpmap"@[0] == 'r' && "extmap"@[0] == 'e');
    assert("rtcp-fb"@[0] == 'r' && "ice-pwd"@[0] == 'i');
    assert("ice-ufrag"@[0] == 'i' && "candidate"@[0] == 'c');
    assert("sendrecv"@[0] == 's' && "sendrecv"@[4] == 'r');
    assert("sendonly"@[0] == 's' && "sendonly"@[4] == 'o');
    assert("recvonly"@[0] == 'r' && "recvonly"@[1] == 'e');
    assert("rtcp-mux"@[0] == 'r' && "rtcp-mux"@[1] == 't');
}

/// The values of a key in attributes put together are those in the one and
/// then those in the other.
pub proof fn lemma_values_concat(a: Seq<AttributeView>, b: Seq<AttributeView>, key: Seq<char>)
    ensures
        values_of(a + b, key) == values_of(a, key) + values_of(b, key),
    decreases b.len(),
{
    if b.len() == 0 {
        assert(a + b == a);
        assert(values_of(a, key) + values_of(b, key) =~= values_of(a, key));
    } else {
        lemma_values_concat(a, b.drop_last(), key);
        assert((a + b).drop_last() == a + b.drop_last());
        assert((a + b).last() == b.last());
        assert(values_of(a + b, key) =~= values_of(a, key) + values_of(b, key));
    }
}

/// Whether no attribute has the key.
pub open spec fn lacks_key(attributes: Seq<AttributeView>, key: Seq<char>) -> bool {
    forall|i: int| 0 <= i < attributes.len() ==> (#[trigger] attributes[i]).key != key
}

/// Attributes that lack a key have no value of it, and no first attribute with it.
pub proof fn lemma_lacking(attributes: Seq<AttributeView>, key: Seq<char>)
    requires
        lacks_key(attributes, key),
    ensures
        values_of(attributes, key) == Seq::<Seq<char>>::empty(),
        first_with_key(attributes, key) is None,
    decreases attributes.len(),
{
    if attributes.len() > 0 {
        assert(attributes[attributes.len() - 1].key != key);
        assert(attributes[0].key != key);
        assert(lacks_key(attributes.drop_last(), key)) by {
            assert forall|i: int| 0 <= i < attributes.drop_last().len() implies (
            #[trigger] attributes.drop_last()[i]).key != key by {
                assert(attributes.drop_last()[i] == attributes[i]);
            }
        }
        assert(lacks_key(attributes.skip(1), key)) by {
            assert forall|i: int| 0 <= i < attributes.skip(1).len() implies (
            #[trigger] attributes.skip(1)[i]).key != key by {
                assert(attributes.skip(1)[i] == attributes[i + 1]);
            }
        }
        lemma_lacking(attributes.drop_last(), key);
        lemma_lacking(attributes.skip(1), key);
    }
}

/// The first attribute with a key, in attributes put together, is the
/// first in the one, or else the first in the other.
pub proof fn lemma_first_concat(a: Seq<AttributeView>, b: Seq<AttributeView>, key: Seq<char>)
    ensures
        first_with_key(a + b, key) == if first_with_key(a, key) is Some {
            first_with_key(a, key)
        } else {
            first_with_key(b, key)
        },
    decreases a.len(),
{
    if a.len() == 0 {
        assert(a + b == b);
    } else {
        assert((a + b)[0] == a[0]);
        assert((a + b).skip(1) == a.skip(1) + b);
        lemma_first_concat(a.skip(1), b, key);
    }
}

/// Attributes of one key, each with a value, have these values as the
/// values of the key.
pub proof fn lemma_values_all(
    attributes: Seq<AttributeView>,
    key: Seq<char>,
    values: Seq<Seq<char>>,
)
    requires
        attributes.len() == values.len(),
        forall|i: int|
            0 <= i < attributes.len() ==> #[trigger] attributes[i] == valued(key, values[i]),
    ensures
        values_of(attributes, key) == values,
    decreases attributes.len(),
{
    if attributes.len() > 0 {
        let before = attributes.drop_last();
        assert forall|i: int| 0 <= i < before.len() implies #[trigger] before[i] == valued(
            key,
            values.drop_last()[i],
        ) by {
            assert(before[i] == attributes[i]);
        }
        lemma_values_all(before, key, values.drop_last());
        assert(attributes.last() == valued(key, values.last()));
        assert(values.drop_last().push(values.last()) =~= values);
    } else {
        assert(values =~= Seq::<Seq<char>>::empty());
    }
}

/// One more text joined to others follows them after the separator.
pub proof fn lemma_join_push(parts: Seq<Seq<char>>, sep: Seq<char>, last: Seq<char>)
    requires
        parts.len() >= 1,
    ensures
        join(parts.push(last), sep) == join(parts, sep) + sep + last,
{
    assert(parts.push(last).drop_last() == parts);
}

/// The name of a candidate type holds no space, and is read as the type.
pub proof fn lemma_candidate_type_read(kind: CandidateType)
    ensures
        free_of(candidate_type_text(kind), ' '),
        candidate_type_from_text(candidate_type_text(kind)) == Some(kind),
{
    reveal_strlit("host");
    reveal_strlit("prflx");
    reveal_strlit("relay");
    reveal_strlit("srflx");
    assert("host"@.len() == 4);
    assert("prflx"@[0] == 'p');
    assert("relay"@[0] == 'r');
    assert("srflx"@[0] == 's');
}

/// Whether a candidate is read again as it is from the line that is
/// written for it: its foundation, protocol and addresses hold no space,
/// and a host candidate has no related address and no related port.
pub open spec fn candidate_plain(candidate: CandidateView) -> bool {
    &&& free_of(candidate.foundation, ' ')
    &&& free_of(candidate.protocol, ' ')
    &&& free_of(candidate.ip, ' ')
    &&& candidate.rel_addr matches Some(address) ==> free_of(address, ' ')
    &&& candidate.type_ == CandidateType::Host ==> candidate.rel_addr is None
        && candidate.rel_port is None
}

/// The words of a candidate line.
pub open spec fn candidate_words(candidate: CandidateView) -> Seq<Seq<char>> {
    let base = seq![
        candidate.foundation,
        decimal(candidate.component as nat),
        candidate.protocol,
        decimal(candidate.priority as nat),
        candidate.ip,
        decimal(candidate.port as nat),
        "typ"@,
        candidate_type_text(candidate.type_),
    ];
    let address = match candidate.rel_addr {
        Some(address) => seq!["raddr"@, address],
        None => Seq::empty(),
    };
    let port = match candidate.rel_port {
        Some(port) => seq!["rport"@, decimal(port as nat)],
        None => Seq::empty(),
    };
    base + address + port + seq!["generation"@, decimal(candidate.generation as nat)]
}

/// The words that name the fields of a candidate line, each as the
/// characters it is made of.
pub proof fn lemma_candidate_marks()
    ensures
        " typ "@ == seq![' '] + "typ"@ + seq![' '],
        " raddr "@ == seq![' '] + "raddr"@ + seq![' '],
        " rport "@ == seq![' '] + "rport"@ + seq![' '],
        " generation "@ == seq![' '] + "generation"@ + seq![' '],
        free_of("typ"@, ' '),
        free_of("raddr"@, ' '),
        free_of("rport"@, ' '),
        free_of("generation"@, ' '),
        "raddr"@ != "rport"@,
        "raddr"@ != "generation"@,
        "rport"@ != "generation"@,
{
    reveal_strlit(" typ ");
    reveal_strlit(" raddr ");
    reveal_strlit(" rport ");
    reveal_strlit(" generation ");
    reveal_strlit("typ");
    reveal_strlit("raddr");
    reveal_strlit("rport");
    reveal_strlit("generation");
    assert(" typ "@ =~= seq![' '] + "typ"@ + seq![' ']);
    assert(" raddr "@ =~= seq![' '] + "raddr"@ + seq![' ']);
    assert(" rport "@ =~= seq![' '] + "rport"@ + seq![' ']);
    assert(" generation "@ =~= seq![' '] + "generation"@ + seq![' ']);
    assert("raddr"@[1] == 'a');
    assert("rport"@[1] == 'p');
    assert("generation"@.len() == 10);
}

/// Putting a word between spaces after a text is putting a space, the
/// word and a space after it.
pub proof fn lemma_spaced(text: Seq<char>, word: Seq<char>)
    ensures
        text + (seq![' '] + word + seq![' ']) == text + seq![' '] + word + seq![' '],
{
    assert(text + (seq![' '] + word + seq![' ']) =~= text + seq![' '] + word + seq![' ']);
}

/// The words of a candidate line up to its type.
pub open spec fn candidate_head_words(candidate: CandidateView) -> Seq<Seq<char>> {
    seq![
        candidate.foundation,
        decimal(candidate.component as nat),
        candidate.protocol,
        decimal(candidate.priority as nat),
        candidate.ip,
        decimal(candidate.port as nat),
        "typ"@,
        candidate_type_text(candidate.type_),
    ]
}

/// The words of the related address and port of a candidate.
pub open spec fn candidate_related_words(candidate: CandidateView) -> Seq<Seq<char>> {
    let address = match candidate.rel_addr {
        Some(address) => seq!["raddr"@, address],
        None => Seq::empty(),
    };
    let port = match candidate.rel_port {
        Some(port) => seq!["rport"@, decimal(port as nat)],
        None => Seq::empty(),
    };
    address + port
}

/// What a candidate line begins with is its first words with a space
/// between neighbours.
pub proof fn lemma_candidate_head_words(candidate: CandidateView)
    ensures
        candidate_head(candidate) == join(candidate_head_words(candidate), seq![' ']),
{
    lemma_marks();
    lemma_candidate_marks();
    let sp = seq![' '];
    let w0 = seq![candidate.foundation];
    let w1 = w0.push(decimal(candidate.component as nat));
    let w2 = w1.push(candidate.protocol);
    let w3 = w2.push(decimal(candidate.priority as nat));
    let w4 = w3.push(candidate.ip);
    let w5 = w4.push(decimal(candidate.port as nat));
    let w6 = w5.push("typ"@);
    let w7 = w6.push(candidate_type_text(candidate.type_));
    assert(join(w0, sp) == candidate.foundation);
    lemma_join_push(w0, sp, decimal(candidate.component as nat));
    lemma_join_push(w1, sp, candidate.protocol);
    lemma_join_push(w2, sp, decimal(candidate.priority as nat));
    lemma_join_push(w3, sp, candidate.ip);
    lemma_join_push(w4, sp, decimal(candidate.port as nat));
    lemma_join_push(w5, sp, "typ"@);
    lemma_join_push(w6, sp, candidate_type_text(candidate.type_));
    lemma_spaced(join(w5, sp), "typ"@);
    assert(w7 =~= candidate_head_words(candidate));
}

/// A text with the related address and port of a candidate after it is the
/// text with their words after it, each after a space.
pub proof fn lemma_candidate_related_words(candidate: CandidateView, words: Seq<Seq<char>>)
    requires
        words.len() >= 1,
        candidate.type_ != CandidateType::Host,
    ensures
        join(words, seq![' ']) + related_text(candidate) == join(
            words + candidate_related_words(candidate),
            seq![' '],
        ),
{
    lemma_marks();
    lemma_candidate_marks();
    let sp = seq![' '];
    let text = join(words, sp);
    let (w1, t1) = match candidate.rel_addr {
        Some(address) => (words.push("raddr"@).push(address), text + (" raddr "@ + address)),
        None => (words, text),
    };
    assert(join(w1, sp) == t1) by {
        match candidate.rel_addr {
            Some(address) => {
                lemma_join_push(words, sp, "raddr"@);
                lemma_join_push(words.push("raddr"@), sp, address);
                lemma_spaced(text, "raddr"@);
                assert(text + (" raddr "@ + address) =~= text + " raddr "@ + address);
            },
            None => {},
        }
    }
    let (w2, t2) = match candidate.rel_port {
        Some(port) => (
            w1.push("rport"@).push(decimal(port as nat)),
            t1 + (" rport "@ + decimal(port as nat)),
        ),
        None => (w1, t1),
    };
    assert(join(w2, sp) == t2) by {
        match candidate.rel_port {
            Some(port) => {
                lemma_join_push(w1, sp, "rport"@);
                lemma_join_push(w1.push("rport"@), sp, decimal(port as nat));
                lemma_spaced(t1, "rport"@);
                assert(t1 + (" rport "@ + decimal(port as nat)) =~= t1 + " rport "@ + decimal(
                    port as nat,
                ));
            },
            None => {},
        }
    }
    assert(w2 =~= words + candidate_related_words(candidate));
    assert(t2 =~= text + related_text(candidate));
}

/// A text with the generation of a candidate after it is the text with
/// the two words of the generation after it, each after a space.
pub proof fn lemma_candidate_generation_words(words: Seq<Seq<char>>, generation: u8)
    requires
        words.len() >= 1,
    ensures
        join(words, seq![' ']) + (" generation "@ + decimal(generation as nat)) == join(
            words + seq!["generation"@, decimal(generation as nat)],
            seq![' '],
        ),
{
    lemma_candidate_marks();
    let sp = seq![' '];
    let text = join(words, sp);
    let number = decimal(generation as nat);
    lemma_join_push(words, sp, "generation"@);
    lemma_join_push(words.push("generation"@), sp, number);
    lemma_spaced(text, "generation"@);
    assert(text + (" generation "@ + number) =~= text + " generation "@ + number);
    assert(words.push("generation"@).push(number) =~= words + seq!["generation"@, number]);
}

/// A candidate line is its words with a space between neighbours.
pub proof fn lemma_candidate_line_words(candidate: CandidateView)
    requires
        candidate.type_ == CandidateType::Host ==> candidate.rel_addr is None
            && candidate.rel_port is None,
    ensures
        candidate_text(candidate) == join(candidate_words(candidate), seq![' ']),
{
    let first = candidate_head_words(candidate);
    let middle = candidate_related_words(candidate);
    lemma_candidate_head_words(candidate);
    if candidate.type_ != CandidateType::Host {
        lemma_candidate_related_words(candidate, first);
    } else {
        assert(middle =~= Seq::<Seq<char>>::empty());
        assert(first + middle =~= first);
        assert(related_text(candidate) =~= Seq::<char>::empty());
        assert(candidate_head(candidate) + related_text(candidate) =~= candidate_head(candidate));
    }
    lemma_candidate_generation_words(first + middle, candidate.generation);
    assert(candidate_words(candidate) == first + middle + seq![
        "generation"@,
        decimal(candidate.generation as nat),
    ]) by {
        lemma_words_parts(candidate);
    }
}

/// The words of a candidate line are its first words, the words of its
/// related address and port, and the two words of its generation.
pub proof fn lemma_words_parts(candidate: CandidateView)
    ensures
        candidate_words(candidate) == candidate_head_words(candidate) + candidate_related_words(
            candidate,
        ) + seq!["generation"@, decimal(candidate.generation as nat)],
{
    let address: Seq<Seq<char>> = match candidate.rel_addr {
        Some(address) => seq!["raddr"@, address],
        None => Seq::empty(),
    };
    let port: Seq<Seq<char>> = match candidate.rel_port {
        Some(port) => seq!["rport"@, decimal(port as nat)],
        None => Seq::empty(),
    };
    let first = candidate_head_words(candidate);
    assert(first + address + port =~= first + (address + port));
}

/// A candidate line is read as the candidate.
pub proof fn lemma_candidate_read(candidate: CandidateView)
    requires
        candidate_plain(candidate),
    ensures
        candidate_entry(candidate_text(candidate)) == Some(candidate),
{
    lemma_marks();
    lemma_candidate_marks();
    lemma_candidate_type_read(candidate.type_);
    lemma_candidate_line_words(candidate);
    let words = candidate_words(candidate);
    lemma_decimal_free_of(candidate.component as nat, ' ');
    lemma_decimal_free_of(candidate.priority as nat, ' ');
    lemma_decimal_free_of(candidate.port as nat, ' ');
    lemma_decimal_free_of(candidate.generation as nat, ' ');
    if candidate.rel_port is Some {
        lemma_decimal_free_of(candidate.rel_port->0 as nat, ' ');
        lemma_numbers_read(0, candidate.rel_port->0, 0);
    }
    assert forall|i: int| 0 <= i < words.len() implies free_of(#[trigger] words[i], ' ') by {}
    lemma_split_join(words, ' ');
    lemma_numbers_read(candidate.component, candidate.port, candidate.priority);
    lemma_numbers_read(candidate.generation, 0, 0);
    let rest = words.skip(8);
    let none = CandidateExtras { rel_addr: None, rel_port: None, generation: 0 };
    let e0 = Seq::<Seq<char>>::empty();
    assert(candidate_extras(e0) == Some(none));
    let (e1, x1) = match candidate.rel_addr {
        Some(address) => (
            e0.push("raddr"@).push(address),
            CandidateExtras { rel_addr: Some(address), ..none },
        ),
        None => (e0, none),
    };
    assert(candidate_extras(e1) == Some(x1)) by {
        if candidate.rel_addr is Some {
            assert(e1.take(e1.len() - 2) =~= e0);
        }
    }
    let (e2, x2) = match candidate.rel_port {
        Some(port) => (
            e1.push("rport"@).push(decimal(port as nat)),
            CandidateExtras { rel_port: Some(port), ..x1 },
        ),
        None => (e1, x1),
    };
    assert(candidate_extras(e2) == Some(x2)) by {
        if candidate.rel_port is Some {
            assert(e2.take(e2.len() - 2) =~= e1);
        }
    }
    let e3 = e2.push("generation"@).push(decimal(candidate.generation as nat));
    let x3 = CandidateExtras { generation: candidate.generation, ..x2 };
    assert(candidate_extras(e3) == Some(x3)) by {
        assert(e3.take(e3.len() - 2) =~= e2);
    }
    assert(rest =~= e3);
}

/// Whether a payload type has neither parameters nor feedback entries.
pub open spec fn without_details(payload_type: PayloadTypeView) -> bool {
    payload_type.parameters.len() == 0 && payload_type.rtcp_fbs.len() == 0
}

/// Whether the payload types of a description are read again as the lines
/// say them: each is readable, with plain parameters and feedback types
/// that hold no space, and payload types that share an id have neither
/// parameters nor feedback entries.
pub open spec fn codecs_plain(payload_types: Seq<PayloadTypeView>) -> bool {
    &&& forall|i: int|
        0 <= i < payload_types.len() ==> {
            &&& codec_readable(#[trigger] payload_types[i])
            &&& parameters_plain(payload_types[i].parameters)
            &&& forall|k: int|
                0 <= k < payload_types[i].rtcp_fbs.len() ==> free_of(
                    (#[trigger] payload_types[i].rtcp_fbs[k]).type_,
                    ' ',
                )
        }
    &&& forall|i: int, j: int|
        0 <= i < payload_types.len() && 0 <= j < payload_types.len() && i != j && (
        #[trigger] payload_types[i]).id == (#[trigger] payload_types[j]).id ==> without_details(
            payload_types[i],
        )
}

/// Plain payload types but for the last are plain.
pub proof fn lemma_codecs_plain_before(payload_types: Seq<PayloadTypeView>)
    requires
        payload_types.len() > 0,
        codecs_plain(payload_types),
    ensures
        codecs_plain(payload_types.drop_last()),
        codec_readable(payload_types.last()),
        parameters_plain(payload_types.last().parameters),
        forall|k: int|
            0 <= k < payload_types.last().rtcp_fbs.len() ==> free_of(
                (#[trigger] payload_types.last().rtcp_fbs[k]).type_,
                ' ',
            ),
        forall|i: int|
            0 <= i < payload_types.len() - 1 && (#[trigger] payload_types[i]).id
                == payload_types.last().id ==> without_details(payload_types[i])
                && without_details(payload_types.last()),
        codec_attributes(payload_types.last()) is Some,
{
    let before = payload_types.drop_last();
    let n = payload_types.len() - 1;
    assert(codec_readable(payload_types[n]));
    assert forall|i: int| 0 <= i < before.len() implies {
        &&& codec_readable(#[trigger] before[i])
        &&& parameters_plain(before[i].parameters)
        &&& forall|k: int|
            0 <= k < before[i].rtcp_fbs.len() ==> free_of(
                (#[trigger] before[i].rtcp_fbs[k]).type_,
                ' ',
            )
    } by {
        assert(before[i] == payload_types[i]);
        assert(codec_readable(payload_types[i]));
    }
    assert forall|i: int, j: int|
        0 <= i < before.len() && 0 <= j < before.len() && i != j && (#[trigger] before[i]).id == (
        #[trigger] before[j]).id implies without_details(before[i]) by {
        assert(before[i] == payload_types[i] && before[j] == payload_types[j]);
    }
    assert forall|i: int|
        0 <= i < n && (#[trigger] payload_types[i]).id
            == payload_types.last().id implies without_details(payload_types[i])
        && without_details(payload_types.last()) by {
        assert(payload_types[n] == payload_types.last());
        assert(payload_types[i].id == payload_types[n].id);
        assert(payload_types[n].id == payload_types[i].id);
    }
}

/// The `rtpmap` line of a payload type.
pub open spec fn rtpmap_value(payload_type: PayloadTypeView) -> Seq<char> {
    rtpmap_text(
        payload_type.id,
        payload_type.name->0,
        payload_type.clockrate->0,
        payload_type.channels,
    )
}

/// The `fmtp` line of a payload type, where it has one.
pub open spec fn fmtp_values_of(payload_type: PayloadTypeView) -> Seq<Seq<char>> {
    if parameters_text(payload_type.parameters).len() > 0 {
        seq![decimal(payload_type.id as nat) + " "@ + parameters_text(payload_type.parameters)]
    } else {
        Seq::empty()
    }
}

/// The `rtcp-fb` lines of a payload type.
pub open spec fn feedback_values_of(payload_type: PayloadTypeView) -> Seq<Seq<char>> {
    Seq::new(
        payload_type.rtcp_fbs.len(),
        |i: int| feedback_text(payload_type.id, payload_type.rtcp_fbs[i]),
    )
}

/// The `rtpmap` lines of payload types.
pub open spec fn rtpmap_values(payload_types: Seq<PayloadTypeView>) -> Seq<Seq<char>>
    decreases payload_types.len(),
{
    if payload_types.len() == 0 {
        Seq::empty()
    } else {
        rtpmap_values(payload_types.drop_last()).push(rtpmap_value(payload_types.last()))
    }
}

/// The `fmtp` lines of payload types.
pub open spec fn fmtp_values(payload_types: Seq<PayloadTypeView>) -> Seq<Seq<char>>
    decreases payload_types.len(),
{
    if payload_types.len() == 0 {
        Seq::empty()
    } else {
        fmtp_values(payload_types.drop_last()) + fmtp_values_of(payload_types.last())
    }
}

/// The `rtcp-fb` lines of payload types.
pub open spec fn feedback_values(payload_types: Seq<PayloadTypeView>) -> Seq<Seq<char>>
    decreases payload_types.len(),
{
    if payload_types.len() == 0 {
        Seq::empty()
    } else {
        feedback_values(payload_types.drop_last()) + feedback_values_of(payload_types.last())
    }
}

/// The attributes of one payload type hold its `rtpmap`, `fmtp` and
/// `rtcp-fb` lines under their keys, and no other key.
pub proof fn lemma_codec_attribute_values(payload_type: PayloadTypeView)
    requires
        codec_attributes(payload_type) is Some,
    ensures
        values_of(codec_attributes(payload_type)->0, "rtpmap"@) == seq![rtpmap_value(payload_type)],
        values_of(codec_attributes(payload_type)->0, "fmtp"@) == fmtp_values_of(payload_type),
        values_of(codec_attributes(payload_type)->0, "rtcp-fb"@) == feedback_values_of(
            payload_type,
        ),
        forall|key: Seq<char>|
            key_rank(key) > 2 ==> lacks_key(codec_attributes(payload_type)->0, key),
{
    lemma_key_ranks();
    let rtpmap = seq![valued("rtpmap"@, rtpmap_value(payload_type))];
    let parameters = parameters_text(payload_type.parameters);
    let fmtp = if parameters.len() > 0 {
        seq![valued("fmtp"@, decimal(payload_type.id as nat) + " "@ + parameters)]
    } else {
        Seq::empty()
    };
    let feedback = Seq::new(
        payload_type.rtcp_fbs.len(),
        |i: int| valued("rtcp-fb"@, feedback_text(payload_type.id, payload_type.rtcp_fbs[i])),
    );
    let all = codec_attributes(payload_type)->0;
    assert(all == rtpmap + fmtp + feedback);
    lemma_values_concat(rtpmap + fmtp, feedback, "rtpmap"@);
    lemma_values_concat(rtpmap, fmtp, "rtpmap"@);
    lemma_values_concat(rtpmap + fmtp, feedback, "fmtp"@);
    lemma_values_concat(rtpmap, fmtp, "fmtp"@);
    lemma_values_concat(rtpmap + fmtp, feedback, "rtcp-fb"@);
    lemma_values_concat(rtpmap, fmtp, "rtcp-fb"@);
    lemma_values_all(rtpmap, "rtpmap"@, seq![rtpmap_value(payload_type)]);
    lemma_values_all(fmtp, "fmtp"@, fmtp_values_of(payload_type));
    lemma_values_all(feedback, "rtcp-fb"@, feedback_values_of(payload_type));
    assert(lacks_key(rtpmap, "fmtp"@) && lacks_key(rtpmap, "rtcp-fb"@));
    assert(lacks_key(fmtp, "rtpmap"@) && lacks_key(fmtp, "rtcp-fb"@));
    assert(lacks_key(feedback, "rtpmap"@) && lacks_key(feedback, "fmtp"@));
    lemma_lacking(rtpmap, "fmtp"@);
    lemma_lacking(rtpmap, "rtcp-fb"@);
    lemma_lacking(fmtp, "rtpmap"@);
    lemma_lacking(fmtp, "rtcp-fb"@);
    lemma_lacking(feedback, "rtpmap"@);
    lemma_lacking(feedback, "fmtp"@);
    let none = Seq::<Seq<char>>::empty();
    assert(seq![rtpmap_value(payload_type)] + none + none =~= seq![rtpmap_value(payload_type)]);
    assert(none + fmtp_values_of(payload_type) + none =~= fmtp_values_of(payload_type));
    assert(none + none + feedback_values_of(payload_type) =~= feedback_values_of(payload_type));
    assert forall|key: Seq<char>| key_rank(key) > 2 implies lacks_key(all, key) by {
        assert forall|i: int| 0 <= i < all.len() implies (#[trigger] all[i]).key != key by {
            if i < rtpmap.len() {
                assert(all[i] == rtpmap[i]);
            } else if i < rtpmap.len() + fmtp.len() {
                assert(all[i] == fmtp[i - rtpmap.len()]);
            } else {
                assert(all[i] == feedback[i - rtpmap.len() - fmtp.len()]);
            }
        }
    }
}

/// The attributes of payload types hold their `rtpmap`, `fmtp` and
/// `rtcp-fb` lines under their keys, and no other key.
pub proof fn lemma_codec_line_values(payload_types: Seq<PayloadTypeView>)
    requires
        codecs_complete(payload_types),
    ensures
        values_of(codec_lines(payload_types), "rtpmap"@) == rtpmap_values(payload_types),
        values_of(codec_lines(payload_types), "fmtp"@) == fmtp_values(payload_types),
        values_of(codec_lines(payload_types), "rtcp-fb"@) == feedback_values(payload_types),
        forall|key: Seq<char>| key_rank(key) > 2 ==> lacks_key(codec_lines(payload_types), key),
    decreases payload_types.len(),
{
    if payload_types.len() > 0 {
        let before = payload_types.drop_last();
        let last = payload_types.last();
        assert(codecs_complete(before)) by {
            assert forall|i: int| 0 <= i < before.len() implies codec_attributes(
                #[trigger] before[i],
            ) is Some by {
                assert(before[i] == payload_types[i]);
            }
        }
        assert(codec_attributes(payload_types[payload_types.len() - 1]) is Some);
        lemma_codec_line_values(before);
        lemma_codec_attribute_values(last);
        let a = codec_lines(before);
        let b = codec_attributes(last)->0;
        lemma_values_concat(a, b, "rtpmap"@);
        lemma_values_concat(a, b, "fmtp"@);
        lemma_values_concat(a, b, "rtcp-fb"@);
        assert(rtpmap_values(before) + seq![rtpmap_value(last)] =~= rtpmap_values(payload_types));
        assert forall|key: Seq<char>| key_rank(key) > 2 implies lacks_key(a + b, key) by {
            assert(lacks_key(a, key) && lacks_key(b, key));
            assert forall|i: int| 0 <= i < (a + b).len() implies (#[trigger] (a + b)[i]).key
                != key by {
                if i < a.len() {
                    assert((a + b)[i] == a[i]);
                } else {
                    assert((a + b)[i] == b[i - a.len()]);
                }
            }
        }
    } else {
        assert forall|key: Seq<char>| key_rank(key) > 2 implies lacks_key(
            codec_lines(payload_types),
            key,
        ) by {}
    }
}

/// Payload types as the lines say them, without their parameters and
/// feedback entries.
pub open spec fn bare(payload_types: Seq<PayloadTypeView>) -> Seq<PayloadTypeView> {
    Seq::new(
        payload_types.len(),
        |i: int|
            PayloadTypeView {
                parameters: Seq::empty(),
                rtcp_fbs: Seq::empty(),
                ..as_read(payload_types[i])
            },
    )
}

/// There is one `rtpmap` line for each payload type, in their order.
pub proof fn lemma_rtpmap_values(payload_types: Seq<PayloadTypeView>)
    ensures
        rtpmap_values(payload_types).len() == payload_types.len(),
        forall|i: int|
            0 <= i < payload_types.len() ==> #[trigger] rtpmap_values(payload_types)[i]
                == rtpmap_value(payload_types[i]),
    decreases payload_types.len(),
{
    if payload_types.len() > 0 {
        lemma_rtpmap_values(payload_types.drop_last());
        assert forall|i: int| 0 <= i < payload_types.len() implies #[trigger] rtpmap_values(
            payload_types,
        )[i] == rtpmap_value(payload_types[i]) by {
            if i < payload_types.len() - 1 {
                assert(rtpmap_values(payload_types)[i] == rtpmap_values(
                    payload_types.drop_last(),
                )[i]);
                assert(payload_types.drop_last()[i] == payload_types[i]);
            }
        }
    }
}

/// Whether the `rtpmap` line of each payload type can be read.
pub open spec fn codecs_readable(payload_types: Seq<PayloadTypeView>) -> bool {
    forall|i: int| 0 <= i < payload_types.len() ==> codec_readable(#[trigger] payload_types[i])
}

/// Payload types whose `rtpmap` lines can be read have their names and
/// clock rates.
pub proof fn lemma_readable_complete(payload_types: Seq<PayloadTypeView>)
    requires
        codecs_readable(payload_types),
    ensures
        codecs_complete(payload_types),
{
    assert forall|i: int| 0 <= i < payload_types.len() implies codec_attributes(
        #[trigger] payload_types[i],
    ) is Some by {
        assert(codec_readable(payload_types[i]));
    }
}

/// The `rtpmap` lines of readable payload types are read as the payload
/// types as the lines say them, without their parameters and feedback
/// entries.
pub proof fn lemma_rtpmaps_read(payload_types: Seq<PayloadTypeView>)
    requires
        codecs_readable(payload_types),
    ensures
        rtpmap_entries(rtpmap_values(payload_types)) == Some(bare(payload_types)),
{
    let values = rtpmap_values(payload_types);
    lemma_rtpmap_values(payload_types);
    assert forall|i: int| 0 <= i < values.len() implies rtpmap_entry(#[trigger] values[i]) == Some(
        bare(payload_types)[i],
    ) by {
        assert(codec_readable(payload_types[i]));
        lemma_rtpmap_read(payload_types[i]);
    }
    assert(rtpmap_entries(values)->0 =~= bare(payload_types));
}

/// What the `fmtp` lines of payload types say: for each payload type with
/// parameters, its id and its parameters.
pub open spec fn fmtp_pairs(payload_types: Seq<PayloadTypeView>) -> Seq<(u8, Seq<ParameterView>)>
    decreases payload_types.len(),
{
    if payload_types.len() == 0 {
        Seq::empty()
    } else {
        let last = payload_types.last();
        let before = fmtp_pairs(payload_types.drop_last());
        if last.parameters.len() > 0 {
            before.push((last.id, last.parameters))
        } else {
            before
        }
    }
}

/// What the `rtcp-fb` lines of one payload type say: for each feedback
/// entry, the id and the entry.
pub open spec fn feedback_pairs_of(payload_type: PayloadTypeView) -> Seq<(u8, RtcpFbView)> {
    Seq::new(payload_type.rtcp_fbs.len(), |k: int| (payload_type.id, payload_type.rtcp_fbs[k]))
}

/// What the `rtcp-fb` lines of payload types say.
pub open spec fn feedback_pairs(payload_types: Seq<PayloadTypeView>) -> Seq<(u8, RtcpFbView)>
    decreases payload_types.len(),
{
    if payload_types.len() == 0 {
        Seq::empty()
    } else {
        feedback_pairs(payload_types.drop_last()) + feedback_pairs_of(payload_types.last())
    }
}

/// `fmtp` lines put together say what the ones say and then what the others say.
pub proof fn lemma_fmtp_entries_concat(a: Seq<Seq<char>>, b: Seq<Seq<char>>)
    requires
        fmtp_entries(a) is Some,
        fmtp_entries(b) is Some,
    ensures
        fmtp_entries(a + b) == Some(fmtp_entries(a)->0 + fmtp_entries(b)->0),
{
    assert forall|i: int| 0 <= i < (a + b).len() implies fmtp_entry(#[trigger] (a + b)[i])
        is Some by {
        if i < a.len() {
            assert((a + b)[i] == a[i]);
        } else {
            assert((a + b)[i] == b[i - a.len()]);
        }
    }
    assert(fmtp_entries(a + b)->0 =~= fmtp_entries(a)->0 + fmtp_entries(b)->0);
}

/// `rtcp-fb` lines put together say what the ones say and then what the others say.
pub proof fn lemma_rtcp_fb_entries_concat(a: Seq<Seq<char>>, b: Seq<Seq<char>>)
    requires
        rtcp_fb_entries(a) is Some,
        rtcp_fb_entries(b) is Some,
    ensures
        rtcp_fb_entries(a + b) == Some(rtcp_fb_entries(a)->0 + rtcp_fb_entries(b)->0),
{
    assert forall|i: int| 0 <= i < (a + b).len() implies rtcp_fb_entry(#[trigger] (a + b)[i])
        is Some by {
        if i < a.len() {
            assert((a + b)[i] == a[i]);
        } else {
            assert((a + b)[i] == b[i - a.len()]);
        }
    }
    assert(rtcp_fb_entries(a + b)->0 =~= rtcp_fb_entries(a)->0 + rtcp_fb_entries(b)->0);
}

/// The `fmtp` lines of plain payload types are read as their ids and parameters.
pub proof fn lemma_fmtps_read(payload_types: Seq<PayloadTypeView>)
    requires
        codecs_plain(payload_types),
    ensures
        fmtp_entries(fmtp_values(payload_types)) == Some(fmtp_pairs(payload_types)),
    decreases payload_types.len(),
{
    if payload_types.len() == 0 {
        assert(fmtp_entries(fmtp_values(payload_types))->0 =~= fmtp_pairs(payload_types));
    } else {
        let before = payload_types.drop_last();
        let last = payload_types.last();
        lemma_codecs_plain_before(payload_types);
        lemma_fmtps_read(before);
        let chunk = fmtp_values_of(last);
        if last.parameters.len() > 0 {
            lemma_fmtp_read(last.id, last.parameters);
            assert(fmtp_entries(chunk)->0 =~= seq![(last.id, last.parameters)]);
        } else {
            assert(parameter_texts(last.parameters) =~= Seq::empty());
            assert(parameters_text(last.parameters).len() == 0);
            assert(fmtp_entries(chunk)->0 =~= Seq::empty());
        }
        lemma_fmtp_entries_concat(fmtp_values(before), chunk);
        assert(fmtp_pairs(before) + fmtp_entries(chunk)->0 =~= fmtp_pairs(payload_types));
    }
}

/// The `rtcp-fb` lines of plain payload types are read as their ids and
/// feedback entries.
pub proof fn lemma_feedbacks_read(payload_types: Seq<PayloadTypeView>)
    requires
        codecs_plain(payload_types),
    ensures
        rtcp_fb_entries(feedback_values(payload_types)) == Some(feedback_pairs(payload_types)),
    decreases payload_types.len(),
{
    if payload_types.len() == 0 {
        assert(rtcp_fb_entries(feedback_values(payload_types))->0 =~= feedback_pairs(
            payload_types,
        ));
    } else {
        let before = payload_types.drop_last();
        let last = payload_types.last();
        lemma_codecs_plain_before(payload_types);
        lemma_feedbacks_read(before);
        let chunk = feedback_values_of(last);
        assert forall|k: int| 0 <= k < chunk.len() implies rtcp_fb_entry(#[trigger] chunk[k])
            == Some(feedback_pairs_of(last)[k]) by {
            assert(free_of(last.rtcp_fbs[k].type_, ' '));
            lemma_feedback_read(last.id, last.rtcp_fbs[k]);
        }
        assert(rtcp_fb_entries(chunk)->0 =~= feedback_pairs_of(last));
        lemma_rtcp_fb_entries_concat(feedback_values(before), chunk);
    }
}

/// The feedback entries for an id in entries put together are those in the
/// ones and then those in the others.
pub proof fn lemma_feedback_for_concat(id: u8, a: Seq<(u8, RtcpFbView)>, b: Seq<(u8, RtcpFbView)>)
    ensures
        feedback_for(id, a + b) == feedback_for(id, a) + feedback_for(id, b),
    decreases b.len(),
{
    if b.len() == 0 {
        assert(a + b == a);
        assert(feedback_for(id, a) + feedback_for(id, b) =~= feedback_for(id, a));
    } else {
        lemma_feedback_for_concat(id, a, b.drop_last());
        assert((a + b).drop_last() == a + b.drop_last());
        assert((a + b).last() == b.last());
        assert(feedback_for(id, a + b) =~= feedback_for(id, a) + feedback_for(id, b));
    }
}

/// Of the feedback entries of one payload type, those for its id are all
/// of them, and those for another id are none.
pub proof fn lemma_feedback_for_own(id: u8, payload_type: PayloadTypeView)
    ensures
        feedback_for(id, feedback_pairs_of(payload_type)) == if id == payload_type.id {
            payload_type.rtcp_fbs
        } else {
            Seq::empty()
        },
    decreases payload_type.rtcp_fbs.len(),
{
    let pairs = feedback_pairs_of(payload_type);
    if payload_type.rtcp_fbs.len() > 0 {
        let shorter = PayloadTypeView {
            rtcp_fbs: payload_type.rtcp_fbs.drop_last(),
            ..payload_type
        };
        lemma_feedback_for_own(id, shorter);
        assert(pairs.drop_last() =~= feedback_pairs_of(shorter));
        assert(pairs.last() == (payload_type.id, payload_type.rtcp_fbs.last()));
        if id == payload_type.id {
            assert(payload_type.rtcp_fbs.drop_last().push(payload_type.rtcp_fbs.last())
                =~= payload_type.rtcp_fbs);
        }
    } else {
        assert(payload_type.rtcp_fbs =~= Seq::empty());
    }
}

/// The parameters and feedback entries that the lines of payload types give
/// for an id are those of each payload type with that id, and none where no
/// payload type has it.
pub proof fn lemma_details_for(payload_types: Seq<PayloadTypeView>, id: u8)
    requires
        codecs_plain(payload_types),
    ensures
        forall|i: int|
            0 <= i < payload_types.len() && (#[trigger] payload_types[i]).id == id ==> {
                &&& parameters_for(id, fmtp_pairs(payload_types)) == payload_types[i].parameters
                &&& feedback_for(id, feedback_pairs(payload_types)) == payload_types[i].rtcp_fbs
            },
        (forall|i: int| 0 <= i < payload_types.len() ==> (#[trigger] payload_types[i]).id != id)
            ==> {
            &&& parameters_for(id, fmtp_pairs(payload_types)) == Seq::<ParameterView>::empty()
            &&& feedback_for(id, feedback_pairs(payload_types)) == Seq::<RtcpFbView>::empty()
        },
    decreases payload_types.len(),
{
    if payload_types.len() > 0 {
        let before = payload_types.drop_last();
        let last = payload_types.last();
        let n = payload_types.len() - 1;
        lemma_codecs_plain_before(payload_types);
        lemma_details_for(before, id);
        lemma_feedback_for_concat(id, feedback_pairs(before), feedback_pairs_of(last));
        lemma_feedback_for_own(id, last);
        let pairs = fmtp_pairs(payload_types);
        let feedbacks = feedback_pairs(payload_types);
        if last.parameters.len() > 0 {
            assert(pairs.drop_last() == fmtp_pairs(before));
            assert(pairs.last() == (last.id, last.parameters));
        }
        assert forall|i: int| 0 <= i < before.len() implies before[i] == payload_types[i] by {}
        let none_p = Seq::<ParameterView>::empty();
        let none_f = Seq::<RtcpFbView>::empty();
        if last.id == id {
            if exists|i: int| 0 <= i < before.len() && (#[trigger] before[i]).id == id {
                let i = choose|i: int| 0 <= i < before.len() && (#[trigger] before[i]).id == id;
                assert(payload_types[i].id == last.id);
                assert(without_details(payload_types[i]) && without_details(last));
                assert(parameters_for(id, fmtp_pairs(before)) == before[i].parameters);
                assert(feedback_for(id, feedback_pairs(before)) == before[i].rtcp_fbs);
                assert(before[i].parameters =~= none_p);
                assert(before[i].rtcp_fbs =~= none_f);
                assert(last.parameters =~= none_p);
                assert(last.rtcp_fbs =~= none_f);
                assert(parameters_for(id, pairs) =~= none_p);
                assert(feedback_for(id, feedbacks) =~= none_f);
                assert forall|j: int|
                    0 <= j < payload_types.len() && (#[trigger] payload_types[j]).id == id implies {
                    &&& parameters_for(id, pairs) == payload_types[j].parameters
                    &&& feedback_for(id, feedbacks) == payload_types[j].rtcp_fbs
                } by {
                    if j < n {
                        assert(payload_types[j].id == last.id);
                        assert(without_details(payload_types[j]));
                        assert(payload_types[j].parameters =~= none_p);
                        assert(payload_types[j].rtcp_fbs =~= none_f);
                    }
                }
            } else {
                assert forall|i: int| 0 <= i < before.len() implies (#[trigger] before[i]).id
                    != id by {}
                assert(parameters_for(id, pairs) =~= last.parameters);
                assert(feedback_for(id, feedbacks) =~= last.rtcp_fbs);
                assert forall|j: int|
                    0 <= j < payload_types.len() && (#[trigger] payload_types[j]).id == id implies {
                    &&& parameters_for(id, pairs) == payload_types[j].parameters
                    &&& feedback_for(id, feedbacks) == payload_types[j].rtcp_fbs
                } by {
                    if j < n {
                        assert(before[j].id == id);
                    }
                }
            }
        } else {
            assert(parameters_for(id, pairs) == parameters_for(id, fmtp_pairs(before)));
            assert(feedback_for(id, feedbacks) =~= feedback_for(id, feedback_pairs(before)));
            assert forall|i: int|
                0 <= i < payload_types.len() && (#[trigger] payload_types[i]).id == id implies {
                &&& parameters_for(id, pairs) == payload_types[i].parameters
                &&& feedback_for(id, feedbacks) == payload_types[i].rtcp_fbs
            } by {
                assert(i < n);
                assert(before[i].id == id);
            }
            if forall|i: int|
                0 <= i < payload_types.len() ==> (#[trigger] payload_types[i]).id != id {
                assert forall|i: int| 0 <= i < before.len() implies (#[trigger] before[i]).id
                    != id by {
                    assert(payload_types[i].id != id);
                }
            }
        }
    }
}

/// Each line of payload types is for one of them.
pub proof fn lemma_pairs_known(payload_types: Seq<PayloadTypeView>, all: Seq<PayloadTypeView>)
    requires
        forall|i: int|
            0 <= i < payload_types.len() ==> knows_id(all, (#[trigger] payload_types[i]).id),
    ensures
        fmtps_known(all, fmtp_pairs(payload_types)),
        feedbacks_known(all, feedback_pairs(payload_types)),
    decreases payload_types.len(),
{
    if payload_types.len() > 0 {
        let before = payload_types.drop_last();
        let last = payload_types.last();
        assert forall|i: int| 0 <= i < before.len() implies knows_id(
            all,
            (#[trigger] before[i]).id,
        ) by {
            assert(before[i] == payload_types[i]);
        }
        assert(knows_id(all, payload_types[payload_types.len() - 1].id));
        lemma_pairs_known(before, all);
        let fmtps = fmtp_pairs(payload_types);
        assert forall|j: int| 0 <= j < fmtps.len() implies knows_id(
            all,
            (#[trigger] fmtps[j]).0,
        ) by {
            if j < fmtp_pairs(before).len() {
                assert(fmtps[j] == fmtp_pairs(before)[j]);
            }
        }
        let feedbacks = feedback_pairs(payload_types);
        assert forall|j: int| 0 <= j < feedbacks.len() implies knows_id(
            all,
            (#[trigger] feedbacks[j]).0,
        ) by {
            if j < feedback_pairs(before).len() {
                assert(feedbacks[j] == feedback_pairs(before)[j]);
            } else {
                assert(feedbacks[j] == feedback_pairs_of(last)[j - feedback_pairs(before).len()]);
            }
        }
    }
}

/// The codec lines of plain payload types are read as the payload types.
pub proof fn lemma_codecs_read(payload_types: Seq<PayloadTypeView>)
    requires
        codecs_plain(payload_types),
    ensures
        rtpmap_entries(rtpmap_values(payload_types)) == Some(bare(payload_types)),
        fmtp_entries(fmtp_values(payload_types)) == Some(fmtp_pairs(payload_types)),
        rtcp_fb_entries(feedback_values(payload_types)) == Some(feedback_pairs(payload_types)),
        fmtps_known(bare(payload_types), fmtp_pairs(payload_types)),
        feedbacks_known(bare(payload_types), feedback_pairs(payload_types)),
        with_details(bare(payload_types), fmtp_pairs(payload_types), feedback_pairs(payload_types))
            == all_as_read(payload_types),
{
    assert(codecs_readable(payload_types)) by {
        assert forall|i: int| 0 <= i < payload_types.len() implies codec_readable(
            #[trigger] payload_types[i],
        ) by {}
    }
    lemma_rtpmaps_read(payload_types);
    lemma_fmtps_read(payload_types);
    lemma_feedbacks_read(payload_types);
    let plain = bare(payload_types);
    assert forall|i: int| 0 <= i < payload_types.len() implies knows_id(
        plain,
        (#[trigger] payload_types[i]).id,
    ) by {
        assert(plain[i].id == payload_types[i].id);
    }
    lemma_pairs_known(payload_types, plain);
    let detailed = with_details(plain, fmtp_pairs(payload_types), feedback_pairs(payload_types));
    assert forall|i: int| 0 <= i < payload_types.len() implies detailed[i] == as_read(
        payload_types[i],
    ) by {
        lemma_details_for(payload_types, payload_types[i].id);
    }
    assert(detailed =~= all_as_read(payload_types));
}

/// An `fmtp` line is read as a line for the id that it was written for.
pub proof fn lemma_fmtp_line(id: u8, text: Seq<char>)
    ensures
        fmtp_entry(decimal(id as nat) + " "@ + text) matches Some(entry) && entry.0 == id,
{
    lemma_marks();
    lemma_numbers_read(id, 0, 0);
    lemma_decimal_free_of(id as nat, ' ');
    lemma_cut(decimal(id as nat), ' ', text);
}

/// An `rtcp-fb` line is read as a line for the id that it was written for.
pub proof fn lemma_feedback_line(id: u8, feedback: RtcpFbView)
    ensures
        rtcp_fb_entry(feedback_text(id, feedback)) matches Some(entry) && entry.0 == id,
{
    lemma_marks();
    lemma_numbers_read(id, 0, 0);
    lemma_decimal_free_of(id as nat, ' ');
    let number = decimal(id as nat);
    let rest = match feedback.subtype {
        Some(subtype) => feedback.type_ + seq![' '] + subtype,
        None => feedback.type_,
    };
    assert(feedback_text(id, feedback) =~= number + seq![' '] + rest);
    lemma_cut(number, ' ', rest);
}

/// An `ssrc` line can be read.
pub proof fn lemma_ssrc_line(id: u32, parameter: SourceParameterView)
    ensures
        ssrc_entry(ssrc_text(id, parameter)) is Some,
{
    lemma_marks();
    lemma_numbers_read(0, 0, id);
    lemma_decimal_free_of(id as nat, ' ');
    let number = decimal(id as nat);
    let rest = match parameter.value {
        Some(value) => parameter.name + seq![':'] + value,
        None => parameter.name,
    };
    assert(ssrc_text(id, parameter) =~= number + seq![' '] + rest);
    lemma_cut(number, ' ', rest);
}

/// The `fmtp` and `rtcp-fb` lines of payload types can be read, each as a
/// line for one of them.
pub proof fn lemma_details_readable(payload_types: Seq<PayloadTypeView>, all: Seq<PayloadTypeView>)
    requires
        forall|i: int|
            0 <= i < payload_types.len() ==> knows_id(all, (#[trigger] payload_types[i]).id),
    ensures
        fmtp_entries(fmtp_values(payload_types)) matches Some(fmtps) && fmtps_known(all, fmtps),
        rtcp_fb_entries(feedback_values(payload_types)) matches Some(feedbacks) && feedbacks_known(
            all,
            feedbacks,
        ),
    decreases payload_types.len(),
{
    if payload_types.len() > 0 {
        let before = payload_types.drop_last();
        let last = payload_types.last();
        assert forall|i: int| 0 <= i < before.len() implies knows_id(
            all,
            (#[trigger] before[i]).id,
        ) by {
            assert(before[i] == payload_types[i]);
        }
        assert(knows_id(all, payload_types[payload_types.len() - 1].id));
        lemma_details_readable(before, all);
        let lines = fmtp_values_of(last);
        assert forall|k: int| 0 <= k < lines.len() implies (fmtp_entry(
            #[trigger] lines[k],
        ) matches Some(entry) && entry.0 == last.id) by {
            lemma_fmtp_line(last.id, parameters_text(last.parameters));
        }
        lemma_fmtp_entries_concat(fmtp_values(before), lines);
        let held = fmtp_entries(fmtp_values(before))->0;
        let fmtps = fmtp_entries(fmtp_values(payload_types))->0;
        assert forall|j: int| 0 <= j < fmtps.len() implies knows_id(
            all,
            (#[trigger] fmtps[j]).0,
        ) by {
            if j < held.len() {
                assert(fmtps[j] == held[j]);
            } else {
                assert(fmtps[j] == fmtp_entries(lines)->0[j - held.len()]);
                let entry = fmtp_entry(lines[j - held.len()])->0;
                assert(entry.0 == last.id);
            }
        }
        let more = feedback_values_of(last);
        assert forall|k: int| 0 <= k < more.len() implies (rtcp_fb_entry(
            #[trigger] more[k],
        ) matches Some(entry) && entry.0 == last.id) by {
            lemma_feedback_line(last.id, last.rtcp_fbs[k]);
        }
        lemma_rtcp_fb_entries_concat(feedback_values(before), more);
        let kept = rtcp_fb_entries(feedback_values(before))->0;
        let feedbacks = rtcp_fb_entries(feedback_values(payload_types))->0;
        assert forall|j: int| 0 <= j < feedbacks.len() implies knows_id(
            all,
            (#[trigger] feedbacks[j]).0,
        ) by {
            if j < kept.len() {
                assert(feedbacks[j] == kept[j]);
            } else {
                assert(feedbacks[j] == rtcp_fb_entries(more)->0[j - kept.len()]);
                let entry = rtcp_fb_entry(more[j - kept.len()])->0;
                assert(entry.0 == last.id);
            }
        }
    }
}

/// The codec lines of readable payload types can be read.
pub proof fn lemma_codecs_readable(payload_types: Seq<PayloadTypeView>)
    requires
        codecs_readable(payload_types),
    ensures
        rtpmap_entries(rtpmap_values(payload_types)) == Some(bare(payload_types)),
        fmtp_entries(fmtp_values(payload_types)) matches Some(fmtps) && fmtps_known(
            bare(payload_types),
            fmtps,
        ),
        rtcp_fb_entries(feedback_values(payload_types)) matches Some(feedbacks) && feedbacks_known(
            bare(payload_types),
            feedbacks,
        ),
{
    lemma_rtpmaps_read(payload_types);
    let plain = bare(payload_types);
    assert forall|i: int| 0 <= i < payload_types.len() implies knows_id(
        plain,
        (#[trigger] payload_types[i]).id,
    ) by {
        assert(plain[i].id == payload_types[i].id);
    }
    lemma_details_readable(payload_types, plain);
}

/// Whether the key of each attribute has a rank from `low` to `high`.
pub open spec fn ranked(attributes: Seq<AttributeView>, low: nat, high: nat) -> bool {
    forall|i: int|
        0 <= i < attributes.len() ==> low <= key_rank((#[trigger] attributes[i]).key) <= high
}

/// Attributes whose keys have ranks in a range lack a key whose rank is outside it.
pub proof fn lemma_ranked_lacks(attributes: Seq<AttributeView>, low: nat, high: nat, key: Seq<char>)
    requires
        ranked(attributes, low, high),
        key_rank(key) < low || key_rank(key) > high,
    ensures
        lacks_key(attributes, key),
        values_of(attributes, key) == Seq::<Seq<char>>::empty(),
        first_with_key(attributes, key) is None,
{
    assert forall|i: int| 0 <= i < attributes.len() implies (#[trigger] attributes[i]).key
        != key by {
        assert(low <= key_rank(attributes[i].key) <= high);
    }
    lemma_lacking(attributes, key);
}

/// Attributes put together have ranks in a range where both have.
pub proof fn lemma_ranked_concat(a: Seq<AttributeView>, b: Seq<AttributeView>, low: nat, high: nat)
    requires
        ranked(a, low, high),
        ranked(b, low, high),
    ensures
        ranked(a + b, low, high),
{
    assert forall|i: int| 0 <= i < (a + b).len() implies low <= key_rank(
        (#[trigger] (a + b)[i]).key,
    ) <= high by {
        if i < a.len() {
            assert((a + b)[i] == a[i]);
        } else {
            assert((a + b)[i] == b[i - a.len()]);
        }
    }
}

/// The `ssrc` lines of sources have the key `ssrc` only.
pub proof fn lemma_ssrc_lines_ranked(sources: Seq<SourceView>)
    ensures
        ranked(ssrc_lines(sources), 11, 11),
    decreases sources.len(),
{
    lemma_key_ranks();
    if sources.len() > 0 {
        lemma_ssrc_lines_ranked(sources.drop_last());
        assert(ranked(source_lines(sources.last()), 11, 11));
        lemma_ranked_concat(ssrc_lines(sources.drop_last()), source_lines(sources.last()), 11, 11);
    }
}

/// The attributes that name a source group have the keys `msid`,
/// `sendrecv`, `sendonly`, `ssrc` and `ssrc-group` only.
pub proof fn lemma_identity_ranked(group: Option<SourceGroupView>, sources: Seq<SourceView>)
    ensures
        ranked(identity_attributes(group, sources), 7, 12),
{
    lemma_key_ranks();
    lemma_ssrc_lines_ranked(sources);
    let msid: Seq<AttributeView> = match msid_of(sources) {
        Some(msid) => seq![valued("msid"@, msid)],
        None => Seq::empty(),
    };
    let declared: Seq<AttributeView> = match group {
        Some(group) => seq![valued("ssrc-group"@, ssrc_group_text(group))],
        None => Seq::empty(),
    };
    let direction = seq![property(direction_of(sources))];
    assert(ranked(msid, 7, 12));
    assert(ranked(direction, 7, 12));
    assert(ranked(declared, 7, 12));
    assert(ranked(ssrc_lines(sources), 7, 12));
    lemma_ranked_concat(msid, direction, 7, 12);
    lemma_ranked_concat(msid + direction, ssrc_lines(sources), 7, 12);
    lemma_ranked_concat(msid + direction + ssrc_lines(sources), declared, 7, 12);
}

/// The one attribute `mid` of a block.
pub open spec fn mid_line(mid: nat) -> Seq<AttributeView> {
    seq![valued("mid"@, decimal(mid))]
}

/// The one attribute `rtcp` of a block.
pub open spec fn rtcp_line() -> Seq<AttributeView> {
    seq![valued("rtcp"@, "1 IN IP4 0.0.0.0"@)]
}

/// The parts of the attributes of a block have keys of rising ranks.
pub proof fn lemma_part_ranks(
    description: RtpDescriptionView,
    transport: Option<TransportView>,
    entry: (Option<SourceGroupView>, Seq<SourceView>),
    mid: nat,
)
    requires
        codecs_complete(description.payload_types),
    ensures
        ranked(codec_lines(description.payload_types), 0, 2),
        ranked(rtcp_line(), 3, 3),
        ranked(extmap_lines(description.hdrexts), 4, 4),
        ranked(setup_lines(transport), 5, 5),
        ranked(mid_line(mid), 6, 6),
        ranked(identity_attributes(entry.0, entry.1), 7, 12),
        ranked(trailing_lines(description, transport), 13, 17),
{
    lemma_key_ranks();
    let codec = codec_lines(description.payload_types);
    lemma_codec_line_values(description.payload_types);
    assert forall|i: int| 0 <= i < codec.len() implies 0 <= key_rank((#[trigger] codec[i]).key)
        <= 2 by {
        if key_rank(codec[i].key) > 2 {
            assert(lacks_key(codec, codec[i].key));
        }
    }
    lemma_identity_ranked(entry.0, entry.1);
    match transport {
        Some(t) => {
            assert(ranked(credential_lines(t), 13, 17));
            assert(ranked(fingerprint_lines(t), 13, 17));
            assert(ranked(candidate_lines(t), 13, 17));
            lemma_ranked_concat(credential_lines(t), fingerprint_lines(t), 13, 17);
            lemma_ranked_concat(
                credential_lines(t) + fingerprint_lines(t),
                candidate_lines(t),
                13,
                17,
            );
        },
        None => {},
    }
    assert(ranked(transport_lines(transport), 13, 17));
    assert(ranked(seq![property("rtcp-mux"@)], 13, 17));
    if description.rtcp_mux {
        lemma_ranked_concat(transport_lines(transport), seq![property("rtcp-mux"@)], 13, 17);
        assert(transport_lines(transport).push(property("rtcp-mux"@)) =~= transport_lines(
            transport,
        ) + seq![property("rtcp-mux"@)]);
    }
}

/// The one if there is one, else the other.
pub open spec fn either(a: Option<AttributeView>, b: Option<AttributeView>) -> Option<
    AttributeView,
> {
    if a is Some {
        a
    } else {
        b
    }
}

/// The values of a key in a block are those in its parts, part after part;
/// the first attribute with a key is the first in the first part that has one.
pub proof fn lemma_block_split(
    description: RtpDescriptionView,
    transport: Option<TransportView>,
    entry: (Option<SourceGroupView>, Seq<SourceView>),
    mid: nat,
    key: Seq<char>,
)
    ensures
        values_of(
            block_attributes(description, transport, extmap_lines(description.hdrexts), entry, mid),
            key,
        ) == values_of(codec_lines(description.payload_types), key) + values_of(rtcp_line(), key)
            + values_of(extmap_lines(description.hdrexts), key) + values_of(
            setup_lines(transport),
            key,
        ) + values_of(mid_line(mid), key) + values_of(identity_attributes(entry.0, entry.1), key)
            + values_of(trailing_lines(description, transport), key),
        first_with_key(
            block_attributes(description, transport, extmap_lines(description.hdrexts), entry, mid),
            key,
        ) == either(
            either(
                either(
                    either(
                        either(
                            either(
                                first_with_key(codec_lines(description.payload_types), key),
                                first_with_key(rtcp_line(), key),
                            ),
                            first_with_key(extmap_lines(description.hdrexts), key),
                        ),
                        first_with_key(setup_lines(transport), key),
                    ),
                    first_with_key(mid_line(mid), key),
                ),
                first_with_key(identity_attributes(entry.0, entry.1), key),
            ),
            first_with_key(trailing_lines(description, transport), key),
        ),
{
    let codec = codec_lines(description.payload_types);
    let rtcp = rtcp_line();
    let extmaps = extmap_lines(description.hdrexts);
    let setup = setup_lines(transport);
    let midl = mid_line(mid);
    let identity = identity_attributes(entry.0, entry.1);
    let trailing = trailing_lines(description, transport);
    let leading = leading_lines(description, transport, extmaps);
    assert(leading == codec + rtcp + extmaps + setup);
    assert(block_attributes(description, transport, extmaps, entry, mid) == leading + midl
        + identity + trailing);
    lemma_values_concat(codec, rtcp, key);
    lemma_values_concat(codec + rtcp, extmaps, key);
    lemma_values_concat(codec + rtcp + extmaps, setup, key);
    lemma_values_concat(leading, midl, key);
    lemma_values_concat(leading + midl, identity, key);
    lemma_values_concat(leading + midl + identity, trailing, key);
    lemma_first_concat(codec, rtcp, key);
    lemma_first_concat(codec + rtcp, extmaps, key);
    lemma_first_concat(codec + rtcp + extmaps, setup, key);
    lemma_first_concat(leading, midl, key);
    lemma_first_concat(leading + midl, identity, key);
    lemma_first_concat(leading + midl + identity, trailing, key);
}

/// A source without the note of its owner.
pub open spec fn without_owner(source: SourceView) -> SourceView {
    SourceView { owner: None, ..source }
}

/// Sources without the notes of their owners.
pub open spec fn without_owners(sources: Seq<SourceView>) -> Seq<SourceView> {
    Seq::new(sources.len(), |i: int| without_owner(sources[i]))
}

/// Whether a source is read again from the lines that are written for it:
/// it has a parameter at least, and the names of its parameters hold no colon.
pub open spec fn source_plain(source: SourceView) -> bool {
    &&& source.parameters.len() >= 1
    &&& forall|k: int|
        0 <= k < source.parameters.len() ==> free_of((#[trigger] source.parameters[k]).name, ':')
}

/// Whether the sources of a source group are read again as they are from
/// the block that is written for the group: each is plain, no two have the
/// same SSRC, and where the group has an `msid` each of them has a
/// parameter of that name.
pub open spec fn sources_plain(sources: Seq<SourceView>) -> bool {
    &&& forall|i: int| 0 <= i < sources.len() ==> source_plain(#[trigger] sources[i])
    &&& distinct_ssrcs(sources)
    &&& msid_of(sources) is Some ==> forall|i: int|
        0 <= i < sources.len() ==> has_parameter((#[trigger] sources[i]).parameters, "msid"@)
}

/// The values of the `ssrc` lines of one source.
pub open spec fn source_values(source: SourceView) -> Seq<Seq<char>> {
    Seq::new(source.parameters.len(), |k: int| ssrc_text(source.id, source.parameters[k]))
}

/// The values of the `ssrc` lines of sources.
pub open spec fn ssrc_values(sources: Seq<SourceView>) -> Seq<Seq<char>>
    decreases sources.len(),
{
    if sources.len() == 0 {
        Seq::empty()
    } else {
        ssrc_values(sources.drop_last()) + source_values(sources.last())
    }
}

/// The `ssrc` lines of sources hold their values under the key `ssrc`.
pub proof fn lemma_ssrc_line_values(sources: Seq<SourceView>)
    ensures
        values_of(ssrc_lines(sources), "ssrc"@) == ssrc_values(sources),
    decreases sources.len(),
{
    if sources.len() > 0 {
        let before = sources.drop_last();
        let last = sources.last();
        lemma_ssrc_line_values(before);
        lemma_values_concat(ssrc_lines(before), source_lines(last), "ssrc"@);
        lemma_values_all(source_lines(last), "ssrc"@, source_values(last));
    }
}

/// The lines of one source, read after lines that gave other sources, add
/// the source, without the note of its owner, as the last.
pub proof fn lemma_source_gathered(values: Seq<Seq<char>>, source: SourceView, k: int)
    requires
        source_plain(source),
        1 <= k <= source.parameters.len(),
        forall|i: int| 0 <= i < values.len() ==> ssrc_entry(#[trigger] values[i]) is Some,
        forall|i: int|
            0 <= i < gathered_sources(values).len() ==> (#[trigger] gathered_sources(values)[i]).id
                != source.id,
    ensures
        gathered_sources(values + source_values(source).take(k)) == gathered_sources(values).push(
            SourceView { id: source.id, parameters: source.parameters.take(k), owner: None },
        ),
    decreases k,
{
    let held = gathered_sources(values);
    let lines = source_values(source);
    let all = values + lines.take(k);
    assert(all.drop_last() =~= values + lines.take(k - 1));
    assert(all.last() == lines[k - 1]);
    assert(free_of(source.parameters[k - 1].name, ':'));
    lemma_ssrc_read(source.id, source.parameters[k - 1]);
    if k == 1 {
        assert(values + lines.take(0) =~= values);
        lemma_source_index(held, source.id, held.len() as int);
        assert(source.parameters.take(1) =~= seq![source.parameters[0]]);
    } else {
        lemma_source_gathered(values, source, k - 1);
        let before = held.push(
            SourceView { id: source.id, parameters: source.parameters.take(k - 1), owner: None },
        );
        assert forall|i: int| 0 <= i < held.len() implies (#[trigger] before[i]).id
            != source.id by {
            assert(before[i] == held[i]);
        }
        lemma_source_index(before, source.id, held.len() as int);
        assert(source.parameters.take(k - 1).push(source.parameters[k - 1])
            =~= source.parameters.take(k));
        assert(with_parameter(before, source.id, Some(source.parameters[k - 1])) =~= held.push(
            SourceView { id: source.id, parameters: source.parameters.take(k), owner: None },
        ));
    }
}

/// The `ssrc` lines of plain sources are read as the sources, without the
/// notes of their owners.
pub proof fn lemma_sources_gathered(sources: Seq<SourceView>)
    requires
        forall|i: int| 0 <= i < sources.len() ==> source_plain(#[trigger] sources[i]),
        distinct_ssrcs(sources),
    ensures
        block_sources(ssrc_values(sources)) == Some(without_owners(sources)),
        forall|i: int|
            0 <= i < ssrc_values(sources).len() ==> ssrc_entry(#[trigger] ssrc_values(sources)[i])
                is Some,
    decreases sources.len(),
{
    if sources.len() == 0 {
        assert(without_owners(sources) =~= Seq::empty());
    } else {
        let before = sources.drop_last();
        let last = sources.last();
        let n = sources.len() - 1;
        assert forall|i: int| 0 <= i < before.len() implies source_plain(#[trigger] before[i]) by {
            assert(before[i] == sources[i]);
        }
        assert(distinct_ssrcs(before)) by {
            assert forall|i: int, j: int| 0 <= i < j < before.len() implies (
            #[trigger] before[i]).id != (#[trigger] before[j]).id by {
                assert(before[i] == sources[i] && before[j] == sources[j]);
            }
        }
        lemma_sources_gathered(before);
        assert(source_plain(sources[n]));
        let values = ssrc_values(before);
        let held = gathered_sources(values);
        assert(held == without_owners(before));
        assert forall|i: int| 0 <= i < held.len() implies (#[trigger] held[i]).id != last.id by {
            assert(held[i].id == sources[i].id);
            assert(sources[n] == last);
        }
        lemma_source_gathered(values, last, last.parameters.len() as int);
        let lines = source_values(last);
        assert(lines.take(lines.len() as int) == lines);
        assert(last.parameters.take(last.parameters.len() as int) == last.parameters);
        let all = ssrc_values(sources);
        assert forall|i: int| 0 <= i < all.len() implies ssrc_entry(#[trigger] all[i]) is Some by {
            if i < values.len() {
                assert(all[i] == values[i]);
            } else {
                let k = i - values.len();
                assert(all[i] == lines[k]);
                assert(free_of(last.parameters[k].name, ':'));
                lemma_ssrc_read(last.id, last.parameters[k]);
            }
        }
        assert(without_owners(before).push(without_owner(last)) =~= without_owners(sources));
    }
}

/// Sources that each have a parameter named `msid` stay as they are when
/// the `msid` of their block is filled in.
pub proof fn lemma_backfill_none(sources: Seq<SourceView>, msid: Option<AttributeView>)
    requires
        msid is Some ==> forall|i: int|
            0 <= i < sources.len() ==> has_parameter((#[trigger] sources[i]).parameters, "msid"@),
    ensures
        backfilled(without_owners(sources), msid) == without_owners(sources),
{
    match msid {
        Some(attribute) => {
            let plain = without_owners(sources);
            assert forall|i: int| 0 <= i < plain.len() implies with_msid(
                plain[i],
                attribute.value,
            ) == plain[i] by {
                assert(has_parameter(sources[i].parameters, "msid"@));
                assert(plain[i].parameters == sources[i].parameters);
            }
            assert(backfilled(plain, msid) =~= plain);
        },
        None => {},
    }
}

/// The source group of an entry as a list: the group where the entry has
/// one, else nothing.
pub open spec fn group_list(group: Option<SourceGroupView>) -> Seq<SourceGroupView> {
    match group {
        Some(group) => seq![group],
        None => Seq::empty(),
    }
}

/// The attributes that name a source group hold its `ssrc` lines, its
/// `ssrc-group` line and its `msid` line under their keys.
pub proof fn lemma_identity_values(group: Option<SourceGroupView>, sources: Seq<SourceView>)
    ensures
        values_of(identity_attributes(group, sources), "ssrc"@) == ssrc_values(sources),
        values_of(identity_attributes(group, sources), "ssrc-group"@) == match group {
            Some(group) => seq![ssrc_group_text(group)],
            None => Seq::empty(),
        },
        first_with_key(identity_attributes(group, sources), "msid"@) == match msid_of(sources) {
            Some(msid) => Some(valued("msid"@, msid)),
            None => None,
        },
{
    lemma_key_ranks();
    let msid: Seq<AttributeView> = match msid_of(sources) {
        Some(msid) => seq![valued("msid"@, msid)],
        None => Seq::empty(),
    };
    let declared: Seq<AttributeView> = match group {
        Some(group) => seq![valued("ssrc-group"@, ssrc_group_text(group))],
        None => Seq::empty(),
    };
    let direction = seq![property(direction_of(sources))];
    let lines = ssrc_lines(sources);
    assert(identity_attributes(group, sources) == msid + direction + lines + declared);
    lemma_ssrc_lines_ranked(sources);
    lemma_ssrc_line_values(sources);
    assert(ranked(msid, 7, 7));
    assert(ranked(direction, 8, 9));
    assert(ranked(declared, 12, 12));
    lemma_values_concat(msid, direction, "ssrc"@);
    lemma_values_concat(msid + direction, lines, "ssrc"@);
    lemma_values_concat(msid + direction + lines, declared, "ssrc"@);
    lemma_ranked_lacks(msid, 7, 7, "ssrc"@);
    lemma_ranked_lacks(direction, 8, 9, "ssrc"@);
    lemma_ranked_lacks(declared, 12, 12, "ssrc"@);
    let none = Seq::<Seq<char>>::empty();
    assert(none + none + ssrc_values(sources) + none =~= ssrc_values(sources));
    lemma_values_concat(msid, direction, "ssrc-group"@);
    lemma_values_concat(msid + direction, lines, "ssrc-group"@);
    lemma_values_concat(msid + direction + lines, declared, "ssrc-group"@);
    lemma_ranked_lacks(msid, 7, 7, "ssrc-group"@);
    lemma_ranked_lacks(direction, 8, 9, "ssrc-group"@);
    lemma_ranked_lacks(lines, 11, 11, "ssrc-group"@);
    match group {
        Some(g) => {
            lemma_values_all(declared, "ssrc-group"@, seq![ssrc_group_text(g)]);
            assert(none + none + none + seq![ssrc_group_text(g)] =~= seq![ssrc_group_text(g)]);
        },
        None => {
            assert(none + none + none + none =~= none);
        },
    }
    lemma_first_concat(msid, direction, "msid"@);
    lemma_first_concat(msid + direction, lines, "msid"@);
    lemma_first_concat(msid + direction + lines, declared, "msid"@);
    lemma_ranked_lacks(direction, 8, 9, "msid"@);
    lemma_ranked_lacks(lines, 11, 11, "msid"@);
    lemma_ranked_lacks(declared, 12, 12, "msid"@);
}

/// Whether a source group is read again from its `ssrc-group` line: it has
/// a member at least.
pub open spec fn group_plain(group: Option<SourceGroupView>) -> bool {
    match group {
        Some(group) => group.sources.len() > 0,
        None => true,
    }
}

/// Each `ssrc` line of sources can be read.
pub proof fn lemma_ssrc_values_readable(sources: Seq<SourceView>)
    ensures
        forall|j: int|
            0 <= j < ssrc_values(sources).len() ==> ssrc_entry(#[trigger] ssrc_values(sources)[j])
                is Some,
    decreases sources.len(),
{
    if sources.len() > 0 {
        let before = ssrc_values(sources.drop_last());
        let last = sources.last();
        let lines = source_values(last);
        lemma_ssrc_values_readable(sources.drop_last());
        assert forall|j: int| 0 <= j < ssrc_values(sources).len() implies ssrc_entry(
            #[trigger] ssrc_values(sources)[j],
        ) is Some by {
            if j < before.len() {
                assert(ssrc_values(sources)[j] == before[j]);
            } else {
                assert(ssrc_values(sources)[j] == lines[j - before.len()]);
                lemma_ssrc_line(last.id, last.parameters[j - before.len()]);
            }
        }
    }
}

/// The sources and the source group of an entry can be read from the block
/// that is written for it: the source group as it is, and the sources as
/// they are, without the notes of their owners, where they are plain.
pub proof fn lemma_block_additions(
    description: RtpDescriptionView,
    transport: Option<TransportView>,
    entry: (Option<SourceGroupView>, Seq<SourceView>),
    mid: nat,
)
    requires
        codecs_complete(description.payload_types),
        group_plain(entry.0),
    ensures
        block_additions(
            block_attributes(description, transport, extmap_lines(description.hdrexts), entry, mid),
        ) matches Some(read) && read.1 == group_list(entry.0) && (sources_plain(entry.1)
            ==> read.0 == without_owners(entry.1)),
{
    lemma_key_ranks();
    let all = block_attributes(
        description,
        transport,
        extmap_lines(description.hdrexts),
        entry,
        mid,
    );
    let codec = codec_lines(description.payload_types);
    let extmaps = extmap_lines(description.hdrexts);
    let setup = setup_lines(transport);
    let identity = identity_attributes(entry.0, entry.1);
    let trailing = trailing_lines(description, transport);
    lemma_part_ranks(description, transport, entry, mid);
    lemma_identity_values(entry.0, entry.1);
    let none = Seq::<Seq<char>>::empty();
    lemma_block_split(description, transport, entry, mid, "ssrc"@);
    lemma_ranked_lacks(codec, 0, 2, "ssrc"@);
    lemma_ranked_lacks(rtcp_line(), 3, 3, "ssrc"@);
    lemma_ranked_lacks(extmaps, 4, 4, "ssrc"@);
    lemma_ranked_lacks(setup, 5, 5, "ssrc"@);
    lemma_ranked_lacks(mid_line(mid), 6, 6, "ssrc"@);
    lemma_ranked_lacks(trailing, 13, 17, "ssrc"@);
    assert(none + none + none + none + none + ssrc_values(entry.1) + none =~= ssrc_values(
        entry.1,
    ));
    lemma_block_split(description, transport, entry, mid, "ssrc-group"@);
    lemma_ranked_lacks(codec, 0, 2, "ssrc-group"@);
    lemma_ranked_lacks(rtcp_line(), 3, 3, "ssrc-group"@);
    lemma_ranked_lacks(extmaps, 4, 4, "ssrc-group"@);
    lemma_ranked_lacks(setup, 5, 5, "ssrc-group"@);
    lemma_ranked_lacks(mid_line(mid), 6, 6, "ssrc-group"@);
    lemma_ranked_lacks(trailing, 13, 17, "ssrc-group"@);
    let lines: Seq<Seq<char>> = match entry.0 {
        Some(group) => seq![ssrc_group_text(group)],
        None => Seq::empty(),
    };
    assert(none + none + none + none + none + lines + none =~= lines);
    lemma_block_split(description, transport, entry, mid, "msid"@);
    lemma_ranked_lacks(codec, 0, 2, "msid"@);
    lemma_ranked_lacks(rtcp_line(), 3, 3, "msid"@);
    lemma_ranked_lacks(extmaps, 4, 4, "msid"@);
    lemma_ranked_lacks(setup, 5, 5, "msid"@);
    lemma_ranked_lacks(mid_line(mid), 6, 6, "msid"@);
    lemma_ranked_lacks(trailing, 13, 17, "msid"@);
    lemma_ssrc_values_readable(entry.1);
    if sources_plain(entry.1) {
        lemma_sources_gathered(entry.1);
        lemma_backfill_none(entry.1, first_with_key(all, "msid"@));
    }
    match entry.0 {
        Some(group) => {
            lemma_ssrc_group_read(group);
            assert(ssrc_group_entries(lines)->0 =~= seq![group]);
        },
        None => {
            assert(ssrc_group_entries(lines)->0 =~= Seq::empty());
        },
    }
}

/// The payload types of a description can be read from each block that is
/// written for it, and are read as the lines say them where they are plain.
pub proof fn lemma_block_payload_types(
    description: RtpDescriptionView,
    transport: Option<TransportView>,
    entry: (Option<SourceGroupView>, Seq<SourceView>),
    mid: nat,
)
    requires
        codecs_readable(description.payload_types),
    ensures
        payload_types_of(
            block_attributes(description, transport, extmap_lines(description.hdrexts), entry, mid),
        ) is Some,
        codecs_plain(description.payload_types) ==> payload_types_of(
            block_attributes(description, transport, extmap_lines(description.hdrexts), entry, mid),
        ) == Some(all_as_read(description.payload_types)),
{
    lemma_key_ranks();
    let payload_types = description.payload_types;
    let extmaps = extmap_lines(description.hdrexts);
    let setup = setup_lines(transport);
    let identity = identity_attributes(entry.0, entry.1);
    let trailing = trailing_lines(description, transport);
    lemma_readable_complete(payload_types);
    lemma_part_ranks(description, transport, entry, mid);
    lemma_codec_line_values(payload_types);
    lemma_codecs_readable(payload_types);
    if codecs_plain(payload_types) {
        lemma_codecs_read(payload_types);
    }
    let none = Seq::<Seq<char>>::empty();
    lemma_block_split(description, transport, entry, mid, "rtpmap"@);
    lemma_ranked_lacks(rtcp_line(), 3, 3, "rtpmap"@);
    lemma_ranked_lacks(extmaps, 4, 4, "rtpmap"@);
    lemma_ranked_lacks(setup, 5, 5, "rtpmap"@);
    lemma_ranked_lacks(mid_line(mid), 6, 6, "rtpmap"@);
    lemma_ranked_lacks(identity, 7, 12, "rtpmap"@);
    lemma_ranked_lacks(trailing, 13, 17, "rtpmap"@);
    assert(rtpmap_values(payload_types) + none + none + none + none + none + none
        =~= rtpmap_values(payload_types));
    lemma_block_split(description, transport, entry, mid, "fmtp"@);
    lemma_ranked_lacks(rtcp_line(), 3, 3, "fmtp"@);
    lemma_ranked_lacks(extmaps, 4, 4, "fmtp"@);
    lemma_ranked_lacks(setup, 5, 5, "fmtp"@);
    lemma_ranked_lacks(mid_line(mid), 6, 6, "fmtp"@);
    lemma_ranked_lacks(identity, 7, 12, "fmtp"@);
    lemma_ranked_lacks(trailing, 13, 17, "fmtp"@);
    assert(fmtp_values(payload_types) + none + none + none + none + none + none =~= fmtp_values(
        payload_types,
    ));
    lemma_block_split(description, transport, entry, mid, "rtcp-fb"@);
    lemma_ranked_lacks(rtcp_line(), 3, 3, "rtcp-fb"@);
    lemma_ranked_lacks(extmaps, 4, 4, "rtcp-fb"@);
    lemma_ranked_lacks(setup, 5, 5, "rtcp-fb"@);
    lemma_ranked_lacks(mid_line(mid), 6, 6, "rtcp-fb"@);
    lemma_ranked_lacks(identity, 7, 12, "rtcp-fb"@);
    lemma_ranked_lacks(trailing, 13, 17, "rtcp-fb"@);
    assert(feedback_values(payload_types) + none + none + none + none + none + none
        =~= feedback_values(payload_types));
}

/// The `extmap` lines of header extensions can be read.
pub proof fn lemma_extmaps_read(hdrexts: Seq<RtpHdrextView>)
    requires
        extmaps_sound(hdrexts),
    ensures
        extmap_entries(values_of(extmap_lines(hdrexts), "extmap"@)) is Some,
{
    lemma_marks();
    let lines = extmap_lines(hdrexts);
    let values = Seq::new(hdrexts.len(), |i: int| extmap_text(hdrexts[i])->0);
    lemma_values_all(lines, "extmap"@, values);
    assert forall|i: int| 0 <= i < values.len() implies extmap_entry(#[trigger] values[i])
        is Some by {
        let h = hdrexts[i];
        assert(extmap_text(h) is Some);
        let uri = h.uri;
        lemma_decimal_free_of(h.id as nat, ' ');
        lemma_cut(decimal(h.id as nat), ' ', uri);
        lemma_numbers_read(0, h.id, 0);
        assert(values[i] =~= decimal(h.id as nat) + seq![' '] + uri);
    }
}

/// The name of a DTLS role is read as the role.
pub proof fn lemma_setup_read(setup: Setup)
    ensures
        setup_from_text(setup_text(setup)) == Some(setup),
{
    reveal_strlit("active");
    reveal_strlit("passive");
    reveal_strlit("actpass");
    assert("active"@.len() == 6);
    assert("passive"@[0] == 'p');
    assert("actpass"@[0] == 'a');
}

/// The name of a hash function in a fingerprint holds no space, and is
/// read as the hash function.
pub proof fn lemma_hash_name_read(hash: AlgoView)
    requires
        hash_name(hash) is Some,
    ensures
        free_of(hash_name(hash)->0, ' '),
        hash_from_name(hash_name(hash)->0) == Some(hash),
{
    lemma_hash_names(hash, hash_name(hash)->0);
    reveal_strlit("sha-1");
    reveal_strlit("sha-256");
    reveal_strlit("sha-512");
    reveal_strlit("sha-224");
    reveal_strlit("sha-384");
    reveal_strlit("shake128");
    reveal_strlit("shake256");
    reveal_strlit("md5");
    reveal_strlit("md2");
}

/// Whether the line that is written for a candidate can be read: the
/// fields that it is written from hold no space.
pub open spec fn candidate_readable(candidate: CandidateView) -> bool {
    &&& free_of(candidate.foundation, ' ')
    &&& free_of(candidate.protocol, ' ')
    &&& free_of(candidate.ip, ' ')
    &&& candidate.type_ != CandidateType::Host ==> (candidate.rel_addr matches Some(address)
        ==> free_of(address, ' '))
}

/// The line of a readable candidate is read as a candidate.
pub proof fn lemma_candidate_parses(candidate: CandidateView)
    requires
        candidate_readable(candidate),
    ensures
        candidate_entry(candidate_text(candidate)) is Some,
{
    if candidate.type_ == CandidateType::Host {
        let written = CandidateView { rel_addr: None, rel_port: None, ..candidate };
        assert(candidate_head(written) == candidate_head(candidate));
        assert(candidate_text(written) == candidate_text(candidate));
        lemma_candidate_read(written);
    } else {
        lemma_candidate_read(candidate);
    }
}

/// Whether the lines that are written for a transport can be read: its
/// candidates are readable, and its fingerprint, if it has one, names a
/// DTLS role.
pub open spec fn transport_plain(transport: Option<TransportView>) -> bool {
    match transport {
        Some(transport) => {
            &&& forall|i: int|
                0 <= i < transport.candidates.len() ==> candidate_readable(
                    #[trigger] transport.candidates[i],
                )
            &&& transport.fingerprint matches Some(fingerprint) ==> fingerprint.setup is Some
        },
        None => true,
    }
}

/// The lines of a transport hold its candidates and its fingerprint
/// under their keys.
pub proof fn lemma_trailing_values(
    description: RtpDescriptionView,
    transport: Option<TransportView>,
)
    requires
        fingerprint_supported(transport),
    ensures
        values_of(trailing_lines(description, transport), "candidate"@) == match transport {
            Some(t) => Seq::new(t.candidates.len(), |i: int| candidate_text(t.candidates[i])),
            None => Seq::empty(),
        },
        first_with_key(trailing_lines(description, transport), "fingerprint"@) == match transport {
            Some(t) => match t.fingerprint {
                Some(f) => Some(valued("fingerprint"@, fingerprint_text(f)->0)),
                None => None,
            },
            None => None,
        },
{
    lemma_key_ranks();
    let mux: Seq<AttributeView> = if description.rtcp_mux {
        seq![property("rtcp-mux"@)]
    } else {
        Seq::empty()
    };
    let lines = transport_lines(transport);
    assert(trailing_lines(description, transport) =~= lines + mux);
    assert(ranked(mux, 17, 17));
    lemma_values_concat(lines, mux, "candidate"@);
    lemma_first_concat(lines, mux, "fingerprint"@);
    lemma_ranked_lacks(mux, 17, 17, "candidate"@);
    lemma_ranked_lacks(mux, 17, 17, "fingerprint"@);
    let none = Seq::<Seq<char>>::empty();
    match transport {
        Some(t) => {
            let credentials = credential_lines(t);
            let fingerprint = fingerprint_lines(t);
            let candidates = candidate_lines(t);
            let texts = Seq::new(t.candidates.len(), |i: int| candidate_text(t.candidates[i]));
            assert(ranked(credentials, 13, 14));
            assert(ranked(fingerprint, 15, 15));
            assert(ranked(candidates, 16, 16));
            lemma_values_concat(credentials, fingerprint, "candidate"@);
            lemma_values_concat(credentials + fingerprint, candidates, "candidate"@);
            lemma_ranked_lacks(credentials, 13, 14, "candidate"@);
            lemma_ranked_lacks(fingerprint, 15, 15, "candidate"@);
            lemma_values_all(candidates, "candidate"@, texts);
            assert(none + none + texts + none =~= texts);
            lemma_first_concat(credentials, fingerprint, "fingerprint"@);
            lemma_first_concat(credentials + fingerprint, candidates, "fingerprint"@);
            lemma_ranked_lacks(credentials, 13, 14, "fingerprint"@);
            lemma_ranked_lacks(candidates, 16, 16, "fingerprint"@);
        },
        None => {
            assert(lines =~= Seq::empty());
            assert(none + none =~= none);
        },
    }
}

/// The transport of a content can be read from each block that is written
/// for the content.
pub proof fn lemma_block_transport(
    description: RtpDescriptionView,
    transport: Option<TransportView>,
    entry: (Option<SourceGroupView>, Seq<SourceView>),
    mid: nat,
)
    requires
        codecs_complete(description.payload_types),
        fingerprint_supported(transport),
        transport_plain(transport),
    ensures
        transport_of(
            block_attributes(description, transport, extmap_lines(description.hdrexts), entry, mid),
        ) is Some,
{
    lemma_key_ranks();
    lemma_marks();
    let all = block_attributes(
        description,
        transport,
        extmap_lines(description.hdrexts),
        entry,
        mid,
    );
    let codec = codec_lines(description.payload_types);
    let extmaps = extmap_lines(description.hdrexts);
    let setup = setup_lines(transport);
    let identity = identity_attributes(entry.0, entry.1);
    let trailing = trailing_lines(description, transport);
    lemma_part_ranks(description, transport, entry, mid);
    lemma_trailing_values(description, transport);
    let none = Seq::<Seq<char>>::empty();
    lemma_block_split(description, transport, entry, mid, "candidate"@);
    lemma_ranked_lacks(codec, 0, 2, "candidate"@);
    lemma_ranked_lacks(rtcp_line(), 3, 3, "candidate"@);
    lemma_ranked_lacks(extmaps, 4, 4, "candidate"@);
    lemma_ranked_lacks(setup, 5, 5, "candidate"@);
    lemma_ranked_lacks(mid_line(mid), 6, 6, "candidate"@);
    lemma_ranked_lacks(identity, 7, 12, "candidate"@);
    let texts = values_of(trailing, "candidate"@);
    assert(none + none + none + none + none + none + texts =~= texts);
    assert forall|i: int| 0 <= i < texts.len() implies candidate_entry(#[trigger] texts[i])
        is Some by {
        assert(candidate_readable(transport->0.candidates[i]));
        lemma_candidate_parses(transport->0.candidates[i]);
    }
    lemma_block_split(description, transport, entry, mid, "fingerprint"@);
    lemma_ranked_lacks(codec, 0, 2, "fingerprint"@);
    lemma_ranked_lacks(rtcp_line(), 3, 3, "fingerprint"@);
    lemma_ranked_lacks(extmaps, 4, 4, "fingerprint"@);
    lemma_ranked_lacks(setup, 5, 5, "fingerprint"@);
    lemma_ranked_lacks(mid_line(mid), 6, 6, "fingerprint"@);
    lemma_ranked_lacks(identity, 7, 12, "fingerprint"@);
    lemma_block_split(description, transport, entry, mid, "setup"@);
    lemma_ranked_lacks(codec, 0, 2, "setup"@);
    lemma_ranked_lacks(rtcp_line(), 3, 3, "setup"@);
    lemma_ranked_lacks(extmaps, 4, 4, "setup"@);
    match transport {
        Some(t) => match t.fingerprint {
            Some(f) => {
                let name = hash_name(f.hash)->0;
                let digits = colon_hex(f.value);
                lemma_hash_name_read(f.hash);
                lemma_colon_hex_read(f.value);
                lemma_setup_read(f.setup->0);
                lemma_cut(name, ' ', digits);
                assert(fingerprint_text(f)->0 =~= name + seq![' '] + digits);
                assert(first_value(all, "fingerprint"@) == Some(fingerprint_text(f)->0));
                assert(setup =~= seq![valued("setup"@, setup_text(f.setup->0))]);
                assert(first_with_key(setup, "setup"@) == Some(setup[0]));
                assert(setup_of(all) == Some(f.setup->0));
            },
            None => {},
        },
        None => {},
    }
}

/// Whether each block that is written for a content can be read: the
/// payload types and the transport of the content are readable, and the
/// source group of each block, if it has one, has a member.
pub open spec fn blocks_readable(content: ContentView) -> bool {
    &&& content.description matches Some(description) && {
        &&& codecs_readable(description.payload_types)
        &&& forall|k: int|
            0 <= k < grouped(description).len() ==> group_plain(
                (#[trigger] grouped(description)[k]).0,
            )
    }
    &&& transport_plain(content.transport)
}

/// Whether the sources of the first `k` source groups of a description are plain.
pub open spec fn entries_plain(description: RtpDescriptionView, k: int) -> bool {
    forall|j: int| 0 <= j < k ==> sources_plain((#[trigger] grouped(description)[j]).1)
}

/// Whether a content is one that a block of the given media type founds: of
/// that name and media type, and without sources and source groups.
pub open spec fn founded(content: ContentView, media: Seq<char>) -> bool {
    &&& content.name == media
    &&& content.description matches Some(description) && description.media == media
        && description.ssrcs == Seq::<SourceView>::empty() && description.ssrc_groups == Seq::<
        SourceGroupView,
    >::empty()
}

/// The content that a block founds is of the media type of the description
/// that the block was written for, and has its payload types as the lines
/// say them where they are plain.
pub proof fn lemma_block_template(
    description: RtpDescriptionView,
    transport: Option<TransportView>,
    entry: (Option<SourceGroupView>, Seq<SourceView>),
    mid: nat,
)
    requires
        codecs_readable(description.payload_types),
        extmaps_sound(description.hdrexts),
        fingerprint_supported(transport),
        transport_plain(transport),
    ensures
        template_content(
            media_block(description, transport, extmap_lines(description.hdrexts), entry, mid),
        ) matches Some(content) && founded(content, description.media) && (codecs_plain(
            description.payload_types,
        ) ==> content.description->0.payload_types == all_as_read(description.payload_types)),
{
    lemma_key_ranks();
    let extmaps = extmap_lines(description.hdrexts);
    lemma_readable_complete(description.payload_types);
    lemma_block_payload_types(description, transport, entry, mid);
    lemma_block_transport(description, transport, entry, mid);
    lemma_part_ranks(description, transport, entry, mid);
    lemma_extmaps_read(description.hdrexts);
    lemma_block_split(description, transport, entry, mid, "extmap"@);
    lemma_ranked_lacks(codec_lines(description.payload_types), 0, 2, "extmap"@);
    lemma_ranked_lacks(rtcp_line(), 3, 3, "extmap"@);
    lemma_ranked_lacks(setup_lines(transport), 5, 5, "extmap"@);
    lemma_ranked_lacks(mid_line(mid), 6, 6, "extmap"@);
    lemma_ranked_lacks(identity_attributes(entry.0, entry.1), 7, 12, "extmap"@);
    lemma_ranked_lacks(trailing_lines(description, transport), 13, 17, "extmap"@);
    let none = Seq::<Seq<char>>::empty();
    let values = values_of(extmaps, "extmap"@);
    assert(none + none + values + none + none + none + none =~= values);
}

/// The sources of the first `k` entries, entry after entry.
pub open spec fn members_so_far(
    entries: Seq<(Option<SourceGroupView>, Seq<SourceView>)>,
    k: int,
) -> Seq<SourceView> {
    without_owners(all_members(entries.take(k)))
}

/// The source groups of entries, in their order.
pub open spec fn groups_of(entries: Seq<(Option<SourceGroupView>, Seq<SourceView>)>) -> Seq<
    SourceGroupView,
>
    decreases entries.len(),
{
    if entries.len() == 0 {
        Seq::empty()
    } else {
        groups_of(entries.drop_last()) + group_list(entries.last().0)
    }
}

/// Sources put together, without the notes of their owners, are the ones
/// and then the others, each without them.
pub proof fn lemma_without_owners_concat(a: Seq<SourceView>, b: Seq<SourceView>)
    ensures
        without_owners(a + b) == without_owners(a) + without_owners(b),
{
    assert(without_owners(a + b) =~= without_owners(a) + without_owners(b));
}

/// Whether `read` is what is read of a description from the blocks of its
/// first `k` source groups: a content of its media type, with the declared
/// source groups among the `k` in the order of their blocks; with its
/// payload types as the lines say them, where they are plain; and with the
/// sources of the `k` source groups, group after group and without the
/// notes of their owners, where these are plain.
pub open spec fn read_so_far(read: ContentView, given: RtpDescriptionView, k: int) -> bool {
    &&& read.name == given.media
    &&& read.description matches Some(description) && {
        &&& description.media == given.media
        &&& description.ssrc_groups == groups_of(grouped(given).take(k))
        &&& codecs_plain(given.payload_types) ==> description.payload_types == all_as_read(
            given.payload_types,
        )
        &&& entries_plain(given, k) ==> description.ssrcs == members_so_far(grouped(given), k)
    }
}

/// The blocks of a content, read after blocks that gave contents of other
/// media types, add one content, which holds what is read of the
/// description of the content.
pub proof fn lemma_content_read(
    before: Seq<MediaDescriptionView>,
    content: ContentView,
    first_mid: nat,
    k: int,
)
    requires
        contents_of(before) is Some,
        blocks_readable(content),
        content_sound(content),
        extmaps_sound(content.description->0.hdrexts),
        forall|i: int|
            0 <= i < contents_of(before)->0.len() ==> (#[trigger] contents_of(before)->0[i]).name
                != content.description->0.media,
        1 <= k <= grouped(content.description->0).len(),
    ensures
        contents_of(
            before + content_blocks(
                content,
                extmap_lines(content.description->0.hdrexts),
                first_mid,
            ).take(k),
        ) matches Some(read) && read.len() == contents_of(before)->0.len() + 1 && read.drop_last()
            == contents_of(before)->0 && read_so_far(read.last(), content.description->0, k),
    decreases k,
{
    let description = content.description->0;
    let transport = content.transport;
    let extmaps = extmap_lines(description.hdrexts);
    let entries = grouped(description);
    let blocks = content_blocks(content, extmaps, first_mid);
    let held = contents_of(before)->0;
    let entry = entries[k - 1];
    let mid = first_mid + (k - 1) as nat;
    let block = media_block(description, transport, extmaps, entry, mid);
    let all = before + blocks.take(k);
    assert(blocks[k - 1] == block);
    assert(all.drop_last() =~= before + blocks.take(k - 1));
    assert(all.last() == block);
    assert(group_plain(entry.0));
    lemma_readable_complete(description.payload_types);
    lemma_block_additions(description, transport, entry, mid);
    let added = block_additions(block.attributes)->0;
    assert(entries.take(k).drop_last() =~= entries.take(k - 1));
    assert(entries.take(k).last() == entry);
    lemma_without_owners_concat(all_members(entries.take(k - 1)), entry.1);
    if entries_plain(description, k) {
        assert(sources_plain(entries[k - 1].1));
        assert(entries_plain(description, k - 1));
    }
    if k == 1 {
        assert(before + blocks.take(0) =~= before);
        lemma_block_template(description, transport, entry, mid);
        lemma_content_index(held, description.media, held.len() as int);
        let first = template_content(block)->0;
        let grown = with_additions(first, added.0, added.1);
        assert(absorb(held, block) == Some(held.push(grown)));
        assert(held.push(grown).drop_last() =~= held);
        assert(all_members(entries.take(0)) =~= Seq::empty());
        assert(Seq::<SourceView>::empty() + without_owners(entry.1) =~= without_owners(entry.1));
        assert(without_owners(Seq::<SourceView>::empty()) =~= Seq::empty());
        assert(groups_of(entries.take(0)) =~= Seq::empty());
        assert(Seq::<SourceGroupView>::empty() + group_list(entry.0) =~= group_list(entry.0));
        assert(Seq::<SourceView>::empty() + added.0 =~= added.0);
    } else {
        lemma_content_read(before, content, first_mid, k - 1);
        let read = contents_of(before + blocks.take(k - 1))->0;
        assert forall|i: int| 0 <= i < held.len() implies (#[trigger] read[i]).name
            != description.media by {
            assert(read[i] == read.drop_last()[i]);
        }
        lemma_content_index(read, description.media, held.len() as int);
        let grown = with_additions(read.last(), added.0, added.1);
        assert(absorb(read, block) == Some(read.update(held.len() as int, grown)));
        assert(read.update(held.len() as int, grown).drop_last() =~= held);
    }
}

/// Whether the blocks that are written for the contents of a session can be
/// read: there is a block for each content, each block can be read, and no
/// two contents are of the same media type.
pub open spec fn all_blocks_readable(contents: Seq<ContentView>) -> bool {
    &&& forall|i: int|
        0 <= i < contents.len() ==> blocks_readable(#[trigger] contents[i]) && grouped(
            contents[i].description->0,
        ).len() >= 1
    &&& forall|i: int, j: int|
        0 <= i < j < contents.len() ==> (#[trigger] contents[i]).description->0.media != (
        #[trigger] contents[j]).description->0.media
}

/// Whether `read` is what is read of `content` from all the blocks that
/// are written for it.
pub open spec fn read_of(read: ContentView, content: ContentView) -> bool {
    read_so_far(read, content.description->0, grouped(content.description->0).len() as int)
}

/// The blocks of readable contents are read as one content for each of them.
pub proof fn lemma_contents_read(contents: Seq<ContentView>)
    requires
        contents_sound(contents),
        all_blocks_readable(contents),
    ensures
        contents_of(blocks_of(contents)) matches Some(read) && read.len() == contents.len()
            && forall|i: int| 0 <= i < contents.len() ==> read_of(#[trigger] read[i], contents[i]),
    decreases contents.len(),
{
    if contents.len() > 0 {
        let before = contents.drop_last();
        assert(contents_sound(before)) by {
            assert forall|i: int| 0 <= i < before.len() implies content_sound(#[trigger] before[i])
                && content_extmaps_sound(before[i]) by {
                assert(before[i] == contents[i]);
            }
        }
        assert(all_blocks_readable(before)) by {
            assert forall|i: int| 0 <= i < before.len() implies blocks_readable(
                #[trigger] before[i],
            ) && grouped(before[i].description->0).len() >= 1 by {
                assert(before[i] == contents[i]);
            }
            assert forall|i: int, j: int| 0 <= i < j < before.len() implies (
            #[trigger] before[i]).description->0.media != (
            #[trigger] before[j]).description->0.media by {
                assert(before[i] == contents[i] && before[j] == contents[j]);
            }
        }
        lemma_contents_read(before);
        lemma_last_read(contents, contents_of(blocks_of(before))->0);
    }
}

/// The step of [`lemma_contents_read`]: the blocks of the last content add
/// what is read of it to what is read of the contents before it.
pub proof fn lemma_last_read(contents: Seq<ContentView>, held: Seq<ContentView>)
    requires
        contents.len() > 0,
        contents_sound(contents),
        all_blocks_readable(contents),
        contents_of(blocks_of(contents.drop_last())) == Some(held),
        held.len() == contents.len() - 1,
        forall|i: int| 0 <= i < held.len() ==> read_of(#[trigger] held[i], contents[i]),
    ensures
        contents_of(blocks_of(contents)) matches Some(read) && read.len() == contents.len()
            && forall|i: int| 0 <= i < contents.len() ==> read_of(#[trigger] read[i], contents[i]),
{
    let before = contents.drop_last();
    let last = contents.last();
    let n = contents.len() - 1;
    let blocks = blocks_of(before);
    assert(contents[n] == last);
    assert(blocks_readable(contents[n]) && content_sound(contents[n]) && content_extmaps_sound(
        contents[n],
    ));
    let description = last.description->0;
    assert forall|i: int| 0 <= i < held.len() implies (#[trigger] held[i]).name
        != description.media by {
        assert(read_of(held[i], contents[i]));
        assert(contents[i].description->0.media != contents[n].description->0.media);
    }
    let entries = grouped(description);
    let k = entries.len() as int;
    lemma_content_read(blocks, last, blocks.len(), k);
    let added = content_blocks(last, extmap_lines(description.hdrexts), blocks.len());
    assert(added.take(k) == added);
    assert(content_extmaps(last) == extmap_lines(description.hdrexts));
    let read = contents_of(blocks_of(contents))->0;
    assert forall|i: int| 0 <= i < contents.len() implies read_of(
        #[trigger] read[i],
        contents[i],
    ) by {
        if i < n {
            assert(read[i] == read.drop_last()[i]);
            assert(read_of(held[i], contents[i]));
        } else {
            assert(read[i] == read.last());
        }
    }
}

/// The token of a content group's semantics holds no space, and is read
/// as the semantics.
pub proof fn lemma_group_semantics_read(semantics: GroupSemantics)
    ensures
        free_of(group_semantics_text(semantics), ' '),
        group_semantics_from_text(group_semantics_text(semantics)) == Some(semantics),
{
    reveal_strlit("LS");
    reveal_strlit("BUNDLE");
    assert("LS"@.len() == 2);
    assert("BUNDLE"@.len() == 6);
}

/// The content group of a session is read again from the attributes that
/// are written for the session, as a group of all the contents that are read.
pub proof fn lemma_bundle_read(group: Option<GroupView>, blocks: nat, contents: Seq<ContentView>)
    ensures
        bundle_of(session_lines(group, blocks), contents) == Some(
            match group {
                Some(group) => Some(
                    GroupView { semantics: group.semantics, contents: content_names(contents) },
                ),
                None => None,
            },
        ),
{
    lemma_marks();
    reveal_strlit("msid-semantic");
    reveal_strlit("group");
    assert("msid-semantic"@.len() == 13);
    assert("group"@.len() == 5);
    let lines = session_lines(group, blocks);
    match group {
        Some(g) => {
            lemma_group_semantics_read(g.semantics);
            let name = group_semantics_text(g.semantics);
            let numbers = join(mids(blocks), " "@);
            let text = name + " "@ + numbers;
            assert(lines.skip(1)[0] == valued("group"@, text));
            assert(first_with_key(lines.skip(1), "group"@) == Some(valued("group"@, text)));
            assert(first_value(lines, "group"@) == Some(text));
            lemma_cut(name, ' ', numbers);
            assert(text =~= name + seq![' '] + numbers);
        },
        None => {
            assert(lines.skip(1) =~= Seq::empty());
            assert(first_with_key(lines.skip(1), "group"@) is None);
        },
    }
}

/// A session whose contents are readable, written as a session description
/// and read again, gives a session with one content for each content,
/// which holds what is read of it.
pub proof fn lemma_session_read(
    jingle: JingleView,
    origin: OriginView,
    action: Action,
    sid: Seq<char>,
    initiator: Seq<char>,
    responder: Seq<char>,
)
    requires
        defect_of(jingle) is None,
        all_blocks_readable(jingle.contents),
    ensures
        session_of(jingle, origin) matches Ok(session) && jingle_of(
            session,
            action,
            sid,
            Some(initiator),
            Some(responder),
        ) matches Ok(back) && back.contents.len() == jingle.contents.len() && forall|i: int|
            0 <= i < jingle.contents.len() ==> read_of(
                #[trigger] back.contents[i],
                jingle.contents[i],
            ),
{
    lemma_contents_read(jingle.contents);
    let blocks = blocks_of(jingle.contents);
    lemma_bundle_read(jingle.group, blocks.len(), contents_of(blocks)->0);
}

/// The source groups of entries put together are those of the ones and
/// then those of the others.
pub proof fn lemma_groups_of_concat(
    a: Seq<(Option<SourceGroupView>, Seq<SourceView>)>,
    b: Seq<(Option<SourceGroupView>, Seq<SourceView>)>,
)
    ensures
        groups_of(a + b) == groups_of(a) + groups_of(b),
    decreases b.len(),
{
    if b.len() == 0 {
        assert(a + b == a);
        assert(groups_of(a) + groups_of(b) =~= groups_of(a));
    } else {
        lemma_groups_of_concat(a, b.drop_last());
        assert((a + b).drop_last() == a + b.drop_last());
        assert((a + b).last() == b.last());
        assert(groups_of(a + b) =~= groups_of(a) + groups_of(b));
    }
}

/// Parting entries by whether they are mixed keeps their source groups,
/// each as often as it occurred.
pub proof fn lemma_kept_groups(entries: Seq<(Option<SourceGroupView>, Seq<SourceView>)>)
    ensures
        groups_of(kept(entries, true)).to_multiset().add(
            groups_of(kept(entries, false)).to_multiset(),
        ) == groups_of(entries).to_multiset(),
    decreases entries.len(),
{
    broadcast use vstd::multiset::group_multiset_axioms;

    if entries.len() == 0 {
        let none = Seq::<SourceGroupView>::empty();
        assert(groups_of(kept(entries, true)) == none);
        assert(groups_of(kept(entries, false)) == none);
        assert(groups_of(entries) == none);
        none.to_multiset_ensures();
        vstd::multiset::lemma_multiset_empty_len(none.to_multiset());
        assert(groups_of(kept(entries, true)).to_multiset().add(
            groups_of(kept(entries, false)).to_multiset(),
        ) =~= groups_of(entries).to_multiset());
    } else {
        let before = entries.drop_last();
        let last = entries.last();
        lemma_kept_groups(before);
        lemma_multiset_commutative(groups_of(before), group_list(last.0));
        if is_mixed(last.1) {
            assert(kept(entries, true).drop_last() == kept(before, true));
            lemma_multiset_commutative(groups_of(kept(before, true)), group_list(last.0));
        } else {
            assert(kept(entries, false).drop_last() == kept(before, false));
            lemma_multiset_commutative(groups_of(kept(before, false)), group_list(last.0));
        }
        assert(groups_of(kept(entries, true)).to_multiset().add(
            groups_of(kept(entries, false)).to_multiset(),
        ) =~= groups_of(entries).to_multiset());
    }
}

/// The entries of the sources that no group names have no source groups.
pub proof fn lemma_ungrouped_groups(sources: Seq<SourceView>, groups: Seq<SourceGroupView>)
    ensures
        groups_of(ungrouped(sources, groups)) == Seq::<SourceGroupView>::empty(),
    decreases sources.len(),
{
    if sources.len() > 0 {
        lemma_ungrouped_groups(sources.drop_last(), groups);
        let entries = ungrouped(sources, groups);
        if !in_some_group(groups, sources.last().id) {
            assert(entries.drop_last() == ungrouped(sources.drop_last(), groups));
            assert(groups_of(entries) =~= Seq::<SourceGroupView>::empty());
        }
    }
}

/// The source groups of the entries of the declared groups are the
/// declared groups.
pub proof fn lemma_declared_groups(sources: Seq<SourceView>, groups: Seq<SourceGroupView>)
    ensures
        groups_of(declared(sources, groups)) == groups,
    decreases groups.len(),
{
    if groups.len() > 0 {
        lemma_declared_groups(sources, groups.drop_last());
        assert(declared(sources, groups).drop_last() =~= declared(sources, groups.drop_last()));
        assert(groups.drop_last() + seq![groups.last()] =~= groups);
    } else {
        assert(groups =~= Seq::empty());
    }
}

/// The source groups of the entries of a description are its declared
/// source groups, each once.
pub proof fn lemma_groups_kept(description: RtpDescriptionView)
    ensures
        groups_of(grouped(description)).to_multiset() == description.ssrc_groups.to_multiset(),
{
    let loose = ungrouped(description.ssrcs, description.ssrc_groups);
    let named = declared(description.ssrcs, description.ssrc_groups);
    let entries = loose + named;
    lemma_groups_of_concat(kept(entries, true), kept(entries, false));
    lemma_multiset_commutative(groups_of(kept(entries, true)), groups_of(kept(entries, false)));
    lemma_kept_groups(entries);
    lemma_groups_of_concat(loose, named);
    lemma_ungrouped_groups(description.ssrcs, description.ssrc_groups);
    lemma_declared_groups(description.ssrcs, description.ssrc_groups);
    assert(Seq::<SourceGroupView>::empty() + description.ssrc_groups
        =~= description.ssrc_groups);
}

/// Sources that are the same but for their order are the same but for their
/// order without the notes of their owners.
pub proof fn lemma_without_owners_rearranged(a: Seq<SourceView>, b: Seq<SourceView>)
    requires
        a.to_multiset() == b.to_multiset(),
    ensures
        without_owners(a).to_multiset() == without_owners(b).to_multiset(),
    decreases a.len(),
{
    broadcast use vstd::multiset::group_multiset_axioms;

    to_multiset_len(a);
    to_multiset_len(b);
    if a.len() == 0 {
        assert(without_owners(a) =~= without_owners(b));
    } else {
        let last = a.last();
        let shorter = a.drop_last();
        assert(shorter.push(last) == a);
        to_multiset_build(shorter, last);
        to_multiset_contains(b, last);
        let at = choose|i: int| 0 <= i < b.len() && b[i] == last;
        let rest = b.remove(at);
        to_multiset_remove(b, at);
        assert(shorter.to_multiset() =~= rest.to_multiset());
        lemma_without_owners_rearranged(shorter, rest);
        assert(without_owners(a) =~= without_owners(shorter).push(without_owner(last)));
        to_multiset_build(without_owners(shorter), without_owner(last));
        assert(without_owners(b) =~= without_owners(rest).insert(at, without_owner(last)));
        to_multiset_insert(without_owners(rest), at, without_owner(last));
    }
}

/// Whether each source of a description stands in one source group and in
/// one only: no two sources have the same SSRC, and no SSRC is named twice
/// by the declared source groups.
pub open spec fn sources_once(description: RtpDescriptionView) -> bool {
    distinct_ssrcs(description.ssrcs) && named_ids(description.ssrc_groups).no_duplicates()
}

/// Whether a content can be read from the session description that is
/// written for it: its payload types and its transport are readable, it
/// has a source or a declared source group, and each declared source group
/// has a member.
pub open spec fn content_readable(content: ContentView) -> bool {
    &&& content.description matches Some(description) && {
        &&& codecs_readable(description.payload_types)
        &&& (description.ssrcs.len() > 0 || description.ssrc_groups.len() > 0)
        &&& forall|g: int|
            0 <= g < description.ssrc_groups.len() ==> (
            #[trigger] description.ssrc_groups[g]).sources.len() > 0
    }
    &&& transport_plain(content.transport)
}

/// Whether the contents of a session can be read from the session
/// description that is written for them: each content is readable, and no
/// two are of the same media type.
pub open spec fn contents_readable(contents: Seq<ContentView>) -> bool {
    &&& forall|i: int| 0 <= i < contents.len() ==> content_readable(#[trigger] contents[i])
    &&& forall|i: int, j: int|
        0 <= i < j < contents.len() ==> (#[trigger] contents[i]).description->0.media != (
        #[trigger] contents[j]).description->0.media
}

/// The blocks of readable contents are readable.
pub proof fn lemma_blocks_readable(contents: Seq<ContentView>)
    requires
        contents_readable(contents),
    ensures
        all_blocks_readable(contents),
{
    assert forall|i: int| 0 <= i < contents.len() implies blocks_readable(#[trigger] contents[i])
        && grouped(contents[i].description->0).len() >= 1 by {
        assert(content_readable(contents[i]));
        let description = contents[i].description->0;
        lemma_some_group(description);
        assert forall|k: int| 0 <= k < grouped(description).len() implies group_plain(
            (#[trigger] grouped(description)[k]).0,
        ) by {
            lemma_entry_of(description, k);
            if let Some(group) = grouped(description)[k].0 {
                let g = choose|g: int|
                    0 <= g < description.ssrc_groups.len() && description.ssrc_groups[g] == group;
                assert(description.ssrc_groups[g].sources.len() > 0);
            }
        }
    }
}

/// What is read again of a session that was written as a session
/// description.
pub open spec fn read_back(
    jingle: JingleView,
    origin: OriginView,
    action: Action,
    sid: Seq<char>,
    initiator: Seq<char>,
    responder: Seq<char>,
) -> Result<JingleView, Error> {
    match session_of(jingle, origin) {
        Ok(session) => jingle_of(session, action, sid, Some(initiator), Some(responder)),
        Err(e) => Err(e),
    }
}

/// A session whose contents are readable, written as a session description
/// and read again, gives for each content a content of the same media type
/// with the same source groups, members in order, in whatever order the
/// groups stand.
pub proof fn lemma_groups_round_trip(
    jingle: JingleView,
    origin: OriginView,
    action: Action,
    sid: Seq<char>,
    initiator: Seq<char>,
    responder: Seq<char>,
)
    requires
        defect_of(jingle) is None,
        contents_readable(jingle.contents),
    ensures
        read_back(jingle, origin, action, sid, initiator, responder) matches Ok(back)
            && back.contents.len() == jingle.contents.len() && forall|i: int|
            0 <= i < jingle.contents.len() ==> {
                let given = jingle.contents[i].description->0;
                (#[trigger] back.contents[i]).description matches Some(read) && read.media
                    == given.media && read.ssrc_groups.to_multiset()
                    == given.ssrc_groups.to_multiset()
            },
{
    lemma_blocks_readable(jingle.contents);
    lemma_session_read(jingle, origin, action, sid, initiator, responder);
    let back = read_back(jingle, origin, action, sid, initiator, responder)->Ok_0;
    assert forall|i: int| 0 <= i < jingle.contents.len() implies {
        let given = jingle.contents[i].description->0;
        (#[trigger] back.contents[i]).description matches Some(read) && read.media == given.media
            && read.ssrc_groups.to_multiset() == given.ssrc_groups.to_multiset()
    } by {
        let given = jingle.contents[i].description->0;
        assert(read_of(back.contents[i], jingle.contents[i]));
        assert(grouped(given).take(grouped(given).len() as int) == grouped(given));
        lemma_groups_kept(given);
    }
}

/// A session whose contents are readable and whose payload types are
/// plain, written as a session description and read again, gives for each
/// content the payload types of the content, in their order and as the
/// lines say them: with id, name, clock rate, parameters and feedback
/// entries as they are, and with the channels as they are where there is
/// one at least.
pub proof fn lemma_codecs_round_trip(
    jingle: JingleView,
    origin: OriginView,
    action: Action,
    sid: Seq<char>,
    initiator: Seq<char>,
    responder: Seq<char>,
)
    requires
        defect_of(jingle) is None,
        contents_readable(jingle.contents),
        forall|i: int|
            0 <= i < jingle.contents.len() ==> codecs_plain(
                (#[trigger] jingle.contents[i]).description->0.payload_types,
            ),
    ensures
        read_back(jingle, origin, action, sid, initiator, responder) matches Ok(back)
            && back.contents.len() == jingle.contents.len() && forall|i: int|
            0 <= i < jingle.contents.len() ==> {
                let given = jingle.contents[i].description->0;
                (#[trigger] back.contents[i]).description matches Some(read) && read.media
                    == given.media && read.payload_types == all_as_read(given.payload_types)
            },
{
    lemma_blocks_readable(jingle.contents);
    lemma_session_read(jingle, origin, action, sid, initiator, responder);
    let back = read_back(jingle, origin, action, sid, initiator, responder)->Ok_0;
    assert forall|i: int| 0 <= i < jingle.contents.len() implies {
        let given = jingle.contents[i].description->0;
        (#[trigger] back.contents[i]).description matches Some(read) && read.media == given.media
            && read.payload_types == all_as_read(given.payload_types)
    } by {
        let given = jingle.contents[i].description->0;
        assert(read_of(back.contents[i], jingle.contents[i]));
        assert(codecs_plain(jingle.contents[i].description->0.payload_types));
    }
}

/// Whether the sources of every source group of a description are plain.
pub open spec fn all_entries_plain(description: RtpDescriptionView) -> bool {
    entries_plain(description, grouped(description).len() as int)
}

/// Whether each source of a description is read again as it is, but for
/// its owner: it has parameters, one of them named `msid`, and their names
/// hold no colon.
pub open spec fn sources_readable(description: RtpDescriptionView) -> bool {
    forall|i: int|
        0 <= i < description.ssrcs.len() ==> source_plain(#[trigger] description.ssrcs[i])
            && has_parameter(description.ssrcs[i].parameters, "msid"@)
}

/// Where the sources of a description are readable and each stands in one
/// source group, the sources of every source group are plain.
pub proof fn lemma_entries_plain(description: RtpDescriptionView)
    requires
        sources_once(description),
        sources_readable(description),
    ensures
        all_entries_plain(description),
{
    let sources = description.ssrcs;
    let groups = description.ssrc_groups;
    assert forall|j: int| 0 <= j < grouped(description).len() implies sources_plain(
        (#[trigger] grouped(description)[j]).1,
    ) by {
        lemma_entry_of(description, j);
        let entry = grouped(description)[j];
        match entry.0 {
            None => {
                let i = choose|i: int|
                    0 <= i < sources.len() && entry.1 == seq![#[trigger] sources[i]];
                assert(entry.1[0] == sources[i]);
            },
            Some(group) => {
                let g = choose|g: int| 0 <= g < groups.len() && groups[g] == group;
                lemma_group_ids_distinct(groups, g);
                lemma_members_within(sources, group.sources);
                assert forall|i: int| 0 <= i < entry.1.len() implies source_plain(
                    #[trigger] entry.1[i],
                ) && has_parameter(entry.1[i].parameters, "msid"@) by {
                    let at = choose|at: int| 0 <= at < sources.len() && sources[at] == entry.1[i];
                    assert(source_plain(sources[at]));
                }
            },
        }
    }
}

/// A session whose contents are readable, whose sources are readable, and
/// in which each source stands in one source group, written as a session
/// description and read again, gives for each content the sources of the
/// content, each once and without the note of its owner, in whatever
/// order.
pub proof fn lemma_sources_round_trip(
    jingle: JingleView,
    origin: OriginView,
    action: Action,
    sid: Seq<char>,
    initiator: Seq<char>,
    responder: Seq<char>,
)
    requires
        defect_of(jingle) is None,
        contents_readable(jingle.contents),
        forall|i: int|
            0 <= i < jingle.contents.len() ==> sources_readable(
                (#[trigger] jingle.contents[i]).description->0,
            ) && sources_once(jingle.contents[i].description->0),
    ensures
        read_back(jingle, origin, action, sid, initiator, responder) matches Ok(back)
            && back.contents.len() == jingle.contents.len() && forall|i: int|
            0 <= i < jingle.contents.len() ==> {
                let given = jingle.contents[i].description->0;
                (#[trigger] back.contents[i]).description matches Some(read) && read.media
                    == given.media && read.ssrcs.len() == given.ssrcs.len()
                    && read.ssrcs.to_multiset() == without_owners(given.ssrcs).to_multiset()
            },
{
    lemma_blocks_readable(jingle.contents);
    lemma_session_read(jingle, origin, action, sid, initiator, responder);
    let back = read_back(jingle, origin, action, sid, initiator, responder)->Ok_0;
    assert forall|i: int| 0 <= i < jingle.contents.len() implies {
        let given = jingle.contents[i].description->0;
        (#[trigger] back.contents[i]).description matches Some(read) && read.media == given.media
            && read.ssrcs.len() == given.ssrcs.len() && read.ssrcs.to_multiset()
            == without_owners(given.ssrcs).to_multiset()
    } by {
        let given = jingle.contents[i].description->0;
        assert(read_of(back.contents[i], jingle.contents[i]));
        assert(sources_readable(jingle.contents[i].description->0));
        assert(sources_once(jingle.contents[i].description->0));
        lemma_entries_plain(given);
        assert(grouped(given).take(grouped(given).len() as int) == grouped(given));
        lemma_every_source_once(given);
        lemma_without_owners_rearranged(all_members(grouped(given)), given.ssrcs);
        to_multiset_len(back.contents[i].description->0.ssrcs);
        to_multiset_len(without_owners(given.ssrcs));
    }
}

} // verus!

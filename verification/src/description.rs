//! The SDP session description: its lines as typed values.

use vstd::prelude::*;
use crate::text::{lemma_chars_deep_view, to_chars};
use crate::views::{
    lemma_deep_view_index, lemma_empty_deep_view, lemma_push_deep_view, lemma_take_next,
};

verus! {

/// An `a=` line: a key, and a value where the line has one.
#[derive(Debug, PartialEq, Eq)]
pub struct Attribute {
    pub key: String,
    pub value: Option<String>,
}

pub struct AttributeView {
    pub key: Seq<char>,
    pub value: Option<Seq<char>>,
}

impl View for Attribute {
    type V = AttributeView;

    open spec fn view(&self) -> AttributeView {
        AttributeView { key: self.key@, value: self.value.deep_view() }
    }
}

impl DeepView for Attribute {
    type V = AttributeView;

    open spec fn deep_view(&self) -> AttributeView {
        self@
    }
}

impl Clone for Attribute {
    fn clone(&self) -> (out: Self)
        ensures
            out@ == self@,
    {
        Attribute { key: self.key.clone(), value: clone_text(&self.value) }
    }
}

impl Attribute {
    /// The attribute `a=key`.
    pub fn property(key: &str) -> (out: Self)
        ensures
            out@ == property(key@),
    {
        Attribute { key: String::from_str(key), value: None }
    }

    /// The attribute `a=key:value`.
    pub fn with_value(key: &str, value: String) -> (out: Self)
        ensures
            out@ == valued(key@, value@),
    {
        Attribute { key: String::from_str(key), value: Some(value) }
    }
}

/// The attribute `a=key`.
pub open spec fn property(key: Seq<char>) -> AttributeView {
    AttributeView { key, value: None }
}

/// The attribute `a=key:value`.
pub open spec fn valued(key: Seq<char>, value: Seq<char>) -> AttributeView {
    AttributeView { key, value: Some(value) }
}

/// A copy of an optional text.
pub fn clone_text(text: &Option<String>) -> (out: Option<String>)
    ensures
        out.deep_view() == text.deep_view(),
{
    match text {
        Some(t) => Some(t.clone()),
        None => None,
    }
}

/// A copy of a list of texts.
pub fn clone_texts(texts: &Vec<String>) -> (out: Vec<String>)
    ensures
        out.deep_view() == texts.deep_view(),
{
    let mut out: Vec<String> = Vec::new();
    let mut i: usize = 0;
    proof {
        lemma_empty_deep_view(out);
    }
    while i < texts.len()
        invariant
            i <= texts.len(),
            out.deep_view() == texts.deep_view().take(i as int),
        decreases texts.len() - i,
    {
        let item = texts[i].clone();
        let ghost before = out;
        let ghost pushed = item;
        out.push(item);
        proof {
            lemma_push_deep_view(before, out, pushed);
            lemma_deep_view_index(*texts, i as int);
            lemma_take_next(texts.deep_view(), i as int);
        }
        i += 1;
    }
    assert(texts.deep_view().take(texts.len() as int) == texts.deep_view());
    out
}

/// A copy of a list of attributes.
pub fn clone_attributes(attributes: &Vec<Attribute>) -> (out: Vec<Attribute>)
    ensures
        out.deep_view() == attributes.deep_view(),
{
    let mut out: Vec<Attribute> = Vec::new();
    let mut i: usize = 0;
    proof {
        lemma_empty_deep_view(out);
    }
    while i < attributes.len()
        invariant
            i <= attributes.len(),
            out.deep_view() == attributes.deep_view().take(i as int),
        decreases attributes.len() - i,
    {
        let item = attributes[i].clone();
        let ghost before = out;
        let ghost pushed = item;
        out.push(item);
        proof {
            lemma_push_deep_view(before, out, pushed);
            lemma_deep_view_index(*attributes, i as int);
            lemma_take_next(attributes.deep_view(), i as int);
        }
        i += 1;
    }
    assert(attributes.deep_view().take(attributes.len() as int) == attributes.deep_view());
    out
}

/// The address of a `c=` line, with its optional time to live and range.
#[derive(Debug, PartialEq, Eq)]
pub struct Address {
    pub address: String,
    pub ttl: Option<isize>,
    pub range: Option<isize>,
}

pub struct AddressView {
    pub address: Seq<char>,
    pub ttl: Option<isize>,
    pub range: Option<isize>,
}

impl View for Address {
    type V = AddressView;

    open spec fn view(&self) -> AddressView {
        AddressView { address: self.address@, ttl: self.ttl, range: self.range }
    }
}

impl DeepView for Address {
    type V = AddressView;

    open spec fn deep_view(&self) -> AddressView {
        self@
    }
}

impl Clone for Address {
    fn clone(&self) -> (out: Self)
        ensures
            out@ == self@,
    {
        Address { address: self.address.clone(), ttl: self.ttl, range: self.range }
    }
}

/// A `c=` line.
#[derive(Debug, PartialEq, Eq)]
pub struct ConnectionInformation {
    pub network_type: String,
    pub address_type: String,
    pub address: Option<Address>,
}

pub struct ConnectionInformationView {
    pub network_type: Seq<char>,
    pub address_type: Seq<char>,
    pub address: Option<AddressView>,
}

impl View for ConnectionInformation {
    type V = ConnectionInformationView;

    open spec fn view(&self) -> ConnectionInformationView {
        ConnectionInformationView {
            network_type: self.network_type@,
            address_type: self.address_type@,
            address: self.address.deep_view(),
        }
    }
}

impl DeepView for ConnectionInformation {
    type V = ConnectionInformationView;

    open spec fn deep_view(&self) -> ConnectionInformationView {
        self@
    }
}

impl Clone for ConnectionInformation {
    fn clone(&self) -> (out: Self)
        ensures
            out@ == self@,
    {
        ConnectionInformation {
            network_type: self.network_type.clone(),
            address_type: self.address_type.clone(),
            address: match &self.address {
                Some(a) => Some(a.clone()),
                None => None,
            },
        }
    }
}

/// A `b=` line.
#[derive(Debug, PartialEq, Eq)]
pub struct Bandwidth {
    pub experimental: bool,
    pub bandwidth_type: String,
    pub bandwidth: u64,
}

pub struct BandwidthView {
    pub experimental: bool,
    pub bandwidth_type: Seq<char>,
    pub bandwidth: u64,
}

impl View for Bandwidth {
    type V = BandwidthView;

    open spec fn view(&self) -> BandwidthView {
        BandwidthView {
            experimental: self.experimental,
            bandwidth_type: self.bandwidth_type@,
            bandwidth: self.bandwidth,
        }
    }
}

impl DeepView for Bandwidth {
    type V = BandwidthView;

    open spec fn deep_view(&self) -> BandwidthView {
        self@
    }
}

impl Clone for Bandwidth {
    fn clone(&self) -> (out: Self)
        ensures
            out@ == self@,
    {
        Bandwidth {
            experimental: self.experimental,
            bandwidth_type: self.bandwidth_type.clone(),
            bandwidth: self.bandwidth,
        }
    }
}

/// A copy of a list of bandwidth lines.
pub fn clone_bandwidths(lines: &Vec<Bandwidth>) -> (out: Vec<Bandwidth>)
    ensures
        out.deep_view() == lines.deep_view(),
{
    let mut out: Vec<Bandwidth> = Vec::new();
    let mut i: usize = 0;
    proof {
        lemma_empty_deep_view(out);
    }
    while i < lines.len()
        invariant
            i <= lines.len(),
            out.deep_view() == lines.deep_view().take(i as int),
        decreases lines.len() - i,
    {
        let item = lines[i].clone();
        let ghost before = out;
        let ghost pushed = item;
        out.push(item);
        proof {
            lemma_push_deep_view(before, out, pushed);
            lemma_deep_view_index(*lines, i as int);
            lemma_take_next(lines.deep_view(), i as int);
        }
        i += 1;
    }
    assert(lines.deep_view().take(lines.len() as int) == lines.deep_view());
    out
}

/// The port of an `m=` line, with the number of ports where one is given.
#[derive(Debug, PartialEq, Eq, Clone, Copy)]
pub struct RangedPort {
    pub value: isize,
    pub range: Option<isize>,
}

/// The fields of an `m=` line.
#[derive(Debug, PartialEq, Eq)]
pub struct MediaName {
    pub media: String,
    pub port: RangedPort,
    pub protos: Vec<String>,
    pub formats: Vec<String>,
}

pub struct MediaNameView {
    pub media: Seq<char>,
    pub port: RangedPort,
    pub protos: Seq<Seq<char>>,
    pub formats: Seq<Seq<char>>,
}

impl View for MediaName {
    type V = MediaNameView;

    open spec fn view(&self) -> MediaNameView {
        MediaNameView {
            media: self.media@,
            port: self.port,
            protos: self.protos.deep_view(),
            formats: self.formats.deep_view(),
        }
    }
}

impl DeepView for MediaName {
    type V = MediaNameView;

    open spec fn deep_view(&self) -> MediaNameView {
        self@
    }
}

impl Clone for MediaName {
    fn clone(&self) -> (out: Self)
        ensures
            out@ == self@,
    {
        MediaName {
            media: self.media.clone(),
            port: self.port,
            protos: clone_texts(&self.protos),
            formats: clone_texts(&self.formats),
        }
    }
}

/// One media block: an `m=` line and the lines under it.
#[derive(Debug, PartialEq, Eq)]
pub struct MediaDescription {
    pub media_name: MediaName,
    pub media_title: Option<String>,
    pub connection_information: Option<ConnectionInformation>,
    pub bandwidth: Vec<Bandwidth>,
    pub encryption_key: Option<String>,
    pub attributes: Vec<Attribute>,
}

pub struct MediaDescriptionView {
    pub media_name: MediaNameView,
    pub media_title: Option<Seq<char>>,
    pub connection_information: Option<ConnectionInformationView>,
    pub bandwidth: Seq<BandwidthView>,
    pub encryption_key: Option<Seq<char>>,
    pub attributes: Seq<AttributeView>,
}

impl View for MediaDescription {
    type V = MediaDescriptionView;

    open spec fn view(&self) -> MediaDescriptionView {
        MediaDescriptionView {
            media_name: self.media_name@,
            media_title: self.media_title.deep_view(),
            connection_information: self.connection_information.deep_view(),
            bandwidth: self.bandwidth.deep_view(),
            encryption_key: self.encryption_key.deep_view(),
            attributes: self.attributes.deep_view(),
        }
    }
}

impl DeepView for MediaDescription {
    type V = MediaDescriptionView;

    open spec fn deep_view(&self) -> MediaDescriptionView {
        self@
    }
}

impl Clone for MediaDescription {
    fn clone(&self) -> (out: Self)
        ensures
            out@ == self@,
    {
        MediaDescription {
            media_name: self.media_name.clone(),
            media_title: clone_text(&self.media_title),
            connection_information: match &self.connection_information {
                Some(c) => Some(c.clone()),
                None => None,
            },
            bandwidth: clone_bandwidths(&self.bandwidth),
            encryption_key: clone_text(&self.encryption_key),
            attributes: clone_attributes(&self.attributes),
        }
    }
}

/// An `o=` line.
#[derive(Debug, PartialEq, Eq, Clone)]
pub struct Origin {
    pub username: String,
    pub session_id: u64,
    pub session_version: u64,
    pub network_type: String,
    pub address_type: String,
    pub unicast_address: String,
}

pub struct OriginView {
    pub username: Seq<char>,
    pub session_id: u64,
    pub session_version: u64,
    pub network_type: Seq<char>,
    pub address_type: Seq<char>,
    pub unicast_address: Seq<char>,
}

impl View for Origin {
    type V = OriginView;

    open spec fn view(&self) -> OriginView {
        OriginView {
            username: self.username@,
            session_id: self.session_id,
            session_version: self.session_version,
            network_type: self.network_type@,
            address_type: self.address_type@,
            unicast_address: self.unicast_address@,
        }
    }
}

/// An `r=` line.
#[derive(Debug, PartialEq, Eq, Clone)]
pub struct RepeatTime {
    pub interval: i64,
    pub duration: i64,
    pub offsets: Vec<i64>,
}

pub struct RepeatTimeView {
    pub interval: i64,
    pub duration: i64,
    pub offsets: Seq<i64>,
}

impl View for RepeatTime {
    type V = RepeatTimeView;

    open spec fn view(&self) -> RepeatTimeView {
        RepeatTimeView { interval: self.interval, duration: self.duration, offsets: self.offsets@ }
    }
}

impl DeepView for RepeatTime {
    type V = RepeatTimeView;

    open spec fn deep_view(&self) -> RepeatTimeView {
        self@
    }
}

/// A `t=` line.
#[derive(Debug, PartialEq, Eq, Clone, Copy)]
pub struct Timing {
    pub start_time: u64,
    pub stop_time: u64,
}

/// A `t=` line and the `r=` lines under it.
#[derive(Debug, PartialEq, Eq, Clone)]
pub struct TimeDescription {
    pub timing: Timing,
    pub repeat_times: Vec<RepeatTime>,
}

pub struct TimeDescriptionView {
    pub timing: Timing,
    pub repeat_times: Seq<RepeatTimeView>,
}

impl View for TimeDescription {
    type V = TimeDescriptionView;

    open spec fn view(&self) -> TimeDescriptionView {
        TimeDescriptionView { timing: self.timing, repeat_times: self.repeat_times.deep_view() }
    }
}

impl DeepView for TimeDescription {
    type V = TimeDescriptionView;

    open spec fn deep_view(&self) -> TimeDescriptionView {
        self@
    }
}

/// One adjustment of a `z=` line.
#[derive(Debug, PartialEq, Eq, Clone, Copy)]
pub struct TimeZone {
    pub adjustment_time: u64,
    pub offset: i64,
}

/// A whole session description.
#[derive(Debug, PartialEq, Eq, Clone)]
pub struct SessionDescription {
    pub version: isize,
    pub origin: Origin,
    pub session_name: String,
    pub session_information: Option<String>,
    pub uri: Option<String>,
    pub email_address: Option<String>,
    pub phone_number: Option<String>,
    pub connection_information: Option<ConnectionInformation>,
    pub bandwidth: Vec<Bandwidth>,
    pub time_descriptions: Vec<TimeDescription>,
    pub time_zones: Vec<TimeZone>,
    pub encryption_key: Option<String>,
    pub attributes: Vec<Attribute>,
    pub media_descriptions: Vec<MediaDescription>,
}

pub struct SessionDescriptionView {
    pub version: isize,
    pub origin: OriginView,
    pub session_name: Seq<char>,
    pub session_information: Option<Seq<char>>,
    pub uri: Option<Seq<char>>,
    pub email_address: Option<Seq<char>>,
    pub phone_number: Option<Seq<char>>,
    pub connection_information: Option<ConnectionInformationView>,
    pub bandwidth: Seq<BandwidthView>,
    pub time_descriptions: Seq<TimeDescriptionView>,
    pub time_zones: Seq<TimeZone>,
    pub encryption_key: Option<Seq<char>>,
    pub attributes: Seq<AttributeView>,
    pub media_descriptions: Seq<MediaDescriptionView>,
}

impl View for SessionDescription {
    type V = SessionDescriptionView;

    open spec fn view(&self) -> SessionDescriptionView {
        SessionDescriptionView {
            version: self.version,
            origin: self.origin@,
            session_name: self.session_name@,
            session_information: self.session_information.deep_view(),
            uri: self.uri.deep_view(),
            email_address: self.email_address.deep_view(),
            phone_number: self.phone_number.deep_view(),
            connection_information: self.connection_information.deep_view(),
            bandwidth: self.bandwidth.deep_view(),
            time_descriptions: self.time_descriptions.deep_view(),
            time_zones: self.time_zones@,
            encryption_key: self.encryption_key.deep_view(),
            attributes: self.attributes.deep_view(),
            media_descriptions: self.media_descriptions.deep_view(),
        }
    }
}

/// The first attribute of `attributes` with the given key.
pub open spec fn first_with_key(attributes: Seq<AttributeView>, key: Seq<char>) -> Option<
    AttributeView,
>
    decreases attributes.len(),
{
    if attributes.len() == 0 {
        None
    } else if attributes[0].key == key {
        Some(attributes[0])
    } else {
        first_with_key(attributes.skip(1), key)
    }
}

/// Whether some attribute has the given key.
pub open spec fn has_key(attributes: Seq<AttributeView>, key: Seq<char>) -> bool {
    first_with_key(attributes, key) is Some
}

/// The value of the first attribute with the given key, where there is such
/// an attribute and it has a value.
pub open spec fn first_value(attributes: Seq<AttributeView>, key: Seq<char>) -> Option<Seq<char>> {
    match first_with_key(attributes, key) {
        Some(a) => a.value,
        None => None,
    }
}

/// The values of the attributes with the given key that have one, in order.
pub open spec fn values_of(attributes: Seq<AttributeView>, key: Seq<char>) -> Seq<Seq<char>>
    decreases attributes.len(),
{
    if attributes.len() == 0 {
        Seq::empty()
    } else {
        let before = values_of(attributes.drop_last(), key);
        let a = attributes.last();
        if a.key == key && a.value is Some {
            before.push(a.value->0)
        } else {
            before
        }
    }
}

/// Finds the first attribute with the given key.
pub fn find_attribute<'a>(attributes: &'a Vec<Attribute>, key: &String) -> (out: Option<
    &'a Attribute,
>)
    ensures
        out.deep_view() == first_with_key(attributes.deep_view(), key@),
{
    let mut i: usize = 0;
    let ghost all = attributes.deep_view();
    proof {
        assert(all.skip(0) == all);
    }
    while i < attributes.len()
        invariant
            i <= attributes.len(),
            all == attributes.deep_view(),
            first_with_key(all, key@) == first_with_key(all.skip(i as int), key@),
        decreases attributes.len() - i,
    {
        proof {
            lemma_deep_view_index(*attributes, i as int);
            assert(all.skip(i as int).skip(1) == all.skip(i + 1));
        }
        if attributes[i].key == *key {
            return Some(&attributes[i]);
        }
        i += 1;
    }
    None
}

/// Whether some attribute has the given key.
pub fn has_attribute(attributes: &Vec<Attribute>, key: &str) -> (out: bool)
    ensures
        out == has_key(attributes.deep_view(), key@),
{
    let key = String::from_str(key);
    find_attribute(attributes, &key).is_some()
}

/// The value of the first attribute with the given key, if it has one.
pub fn value_of<'a>(attributes: &'a Vec<Attribute>, key: &str) -> (out: Option<&'a String>)
    ensures
        out.deep_view() == first_value(attributes.deep_view(), key@),
{
    let key = String::from_str(key);
    match find_attribute(attributes, &key) {
        Some(a) => a.value.as_ref(),
        None => None,
    }
}

/// The values of the attributes with the given key that have one, in order,
/// each as its characters.
pub fn values_for(attributes: &Vec<Attribute>, key: &str) -> (out: Vec<Vec<char>>)
    ensures
        out.deep_view() == values_of(attributes.deep_view(), key@),
{
    let key = String::from_str(key);
    let mut out: Vec<Vec<char>> = Vec::new();
    let mut i: usize = 0;
    let ghost all = attributes.deep_view();
    proof {
        lemma_empty_deep_view(out);
    }
    while i < attributes.len()
        invariant
            i <= attributes.len(),
            all == attributes.deep_view(),
            out.deep_view() == values_of(all.take(i as int), key@),
        decreases attributes.len() - i,
    {
        proof {
            lemma_deep_view_index(*attributes, i as int);
            assert(all.take(i + 1).drop_last() == all.take(i as int));
        }
        if attributes[i].key == key {
            match &attributes[i].value {
                Some(value) => {
                    let chars = to_chars(value.as_str());
                    let ghost before = out;
                    let ghost pushed = chars;
                    out.push(chars);
                    proof {
                        lemma_push_deep_view(before, out, pushed);
                        lemma_chars_deep_view(pushed);
                    }
                },
                None => {},
            }
        }
        i += 1;
    }
    assert(all.take(attributes.len() as int) == all);
    out
}

} // verus!

//! Adding the sources of newly joined participants to a session description
//! that is in use.

use vstd::prelude::*;
use crate::description::{
    clone_bandwidths, clone_text, valued, values_for, values_of, Attribute, AttributeView,
    MediaDescription, MediaDescriptionView, SessionDescription, SessionDescriptionView,
};
use crate::encode::{identity_attributes, populate_media_description_from_sources};
use crate::error::Error;
use crate::grouping::{group_sources, grouped};
use crate::jingle::{Content, ContentView, Jingle, SourceGroupView, SourceView};
use crate::text::{
    decimal, decimal_string, lemma_chars_deep_view, parse_unsigned, str_eq, unsigned_from_text,
};
use crate::views::{
    lemma_deep_view_index, lemma_empty_deep_view, lemma_push_deep_view, lemma_take_next,
};

verus! {

/// Whether an attribute of this key names the sources of a block: `ssrc`,
/// `ssrc-group`, `mid`, `msid`, `sendrecv` or `sendonly`.
pub open spec fn is_identity_key(key: Seq<char>) -> bool {
    key == "ssrc"@ || key == "ssrc-group"@ || key == "mid"@ || key == "msid"@ || key
        == "sendrecv"@ || key == "sendonly"@
}

/// `attributes` without those that name the sources of a block.
pub open spec fn without_identity(attributes: Seq<AttributeView>) -> Seq<AttributeView>
    decreases attributes.len(),
{
    if attributes.len() == 0 {
        Seq::empty()
    } else {
        let before = without_identity(attributes.drop_last());
        if is_identity_key(attributes.last().key) {
            before
        } else {
            before.push(attributes.last())
        }
    }
}

/// The index of the first of `blocks` of the given media type, or their
/// number where there is none.
pub open spec fn block_index(blocks: Seq<MediaDescriptionView>, media: Seq<char>) -> int
    decreases blocks.len(),
{
    if blocks.len() == 0 || blocks[0].media_name.media == media {
        0
    } else {
        1 + block_index(blocks.skip(1), media)
    }
}

/// `block_index` returns the first index that holds the media type.
pub proof fn lemma_block_index(blocks: Seq<MediaDescriptionView>, media: Seq<char>, at: int)
    requires
        0 <= at <= blocks.len(),
        at < blocks.len() ==> blocks[at].media_name.media == media,
        forall|k: int| 0 <= k < at ==> (#[trigger] blocks[k]).media_name.media != media,
    ensures
        block_index(blocks, media) == at,
    decreases blocks.len(),
{
    if blocks.len() == 0 || blocks[0].media_name.media == media {
    } else {
        let rest = blocks.skip(1);
        assert forall|k: int| 0 <= k < at - 1 implies (#[trigger] rest[k]).media_name.media
            != media by {
            assert(rest[k] == blocks[k + 1]);
        }
        lemma_block_index(rest, media, at - 1);
    }
}

/// The block that is added for one source group: the template without the
/// attributes that name its own sources, then the `mid`, then the
/// attributes that name the group.
pub open spec fn added_block(
    template: MediaDescriptionView,
    entry: (Option<SourceGroupView>, Seq<SourceView>),
    mid: nat,
) -> MediaDescriptionView {
    MediaDescriptionView {
        attributes: without_identity(template.attributes) + seq![valued("mid"@, decimal(mid))]
            + identity_attributes(entry.0, entry.1),
        ..template
    }
}

/// The largest number that is read as a `mid`.
pub const MID_LIMIT: u64 = 999_999_999_999_999_999;

/// The number that the value of a `mid` attribute denotes, where it denotes
/// one that is not above [`MID_LIMIT`].
pub open spec fn mid_number(value: Seq<char>) -> Option<nat> {
    unsigned_from_text(value, MID_LIMIT as nat)
}

/// The least number that is not below `floor` and is above every number
/// that one of `values` denotes.
pub open spec fn next_after(values: Seq<Seq<char>>, floor: nat) -> nat
    decreases values.len(),
{
    if values.len() == 0 {
        floor
    } else {
        let before = next_after(values.drop_last(), floor);
        match mid_number(values.last()) {
            Some(n) => if n >= before {
                n + 1
            } else {
                before
            },
            None => before,
        }
    }
}

/// The next unused `mid`: one more than the largest number that a `mid`
/// value of a block denotes, and 0 where none denotes a number.
pub open spec fn next_mid(blocks: Seq<MediaDescriptionView>) -> nat
    decreases blocks.len(),
{
    if blocks.len() == 0 {
        0
    } else {
        next_after(values_of(blocks.last().attributes, "mid"@), next_mid(blocks.drop_last()))
    }
}

/// The blocks that one content adds to `blocks`: one for each of its source
/// groups, after the first block of its media type, with `mid`s counting up
/// from `first_mid`. None where the content has no description or no block
/// has its media type.
pub open spec fn blocks_for(
    blocks: Seq<MediaDescriptionView>,
    content: ContentView,
    first_mid: nat,
) -> Seq<MediaDescriptionView> {
    match content.description {
        Some(description) => {
            let at = block_index(blocks, description.media);
            if 0 <= at < blocks.len() {
                let groups = grouped(description);
                Seq::new(
                    groups.len(),
                    |k: int| added_block(blocks[at], groups[k], first_mid + k as nat),
                )
            } else {
                Seq::empty()
            }
        },
        None => Seq::empty(),
    }
}

/// `blocks` with the blocks that `contents` add, content by content, where
/// the first block that is added gets the `mid` `first_mid` and each further
/// one the next number.
pub open spec fn extended(
    blocks: Seq<MediaDescriptionView>,
    contents: Seq<ContentView>,
    first_mid: nat,
) -> Seq<MediaDescriptionView>
    decreases contents.len(),
{
    if contents.len() == 0 {
        blocks
    } else {
        let before = extended(blocks, contents.drop_last(), first_mid);
        before + blocks_for(
            before,
            contents.last(),
            first_mid + (before.len() - blocks.len()) as nat,
        )
    }
}

/// `blocks` with the blocks that `contents` add, the new blocks numbered
/// from the next unused `mid` on.
pub open spec fn with_sources(blocks: Seq<MediaDescriptionView>, contents: Seq<ContentView>) -> Seq<
    MediaDescriptionView,
> {
    extended(blocks, contents, next_mid(blocks))
}

/// Whether `count` blocks can be numbered from `first_mid` on without a
/// `mid` above [`MID_LIMIT`].
pub open spec fn mids_fit(first_mid: nat, count: nat) -> bool {
    count == 0 || first_mid + count <= MID_LIMIT + 1
}

/// Whether the blocks that `contents` add to `blocks` can be numbered.
pub open spec fn sources_fit(
    blocks: Seq<MediaDescriptionView>,
    contents: Seq<ContentView>,
) -> bool {
    mids_fit(next_mid(blocks), (with_sources(blocks, contents).len() - blocks.len()) as nat)
}

/// Blocks grow with each content that adds to them.
pub proof fn lemma_extended_grows(
    blocks: Seq<MediaDescriptionView>,
    contents: Seq<ContentView>,
    first_mid: nat,
    i: int,
)
    requires
        0 <= i <= contents.len(),
    ensures
        blocks.len() <= extended(blocks, contents.take(i), first_mid).len() <= extended(
            blocks,
            contents,
            first_mid,
        ).len(),
    decreases contents.len(),
{
    if i == contents.len() {
        assert(contents.take(i) == contents);
        if contents.len() > 0 {
            lemma_extended_grows(blocks, contents.drop_last(), first_mid, contents.len() - 1);
            assert(contents.drop_last().take(contents.len() - 1) == contents.drop_last());
        }
    } else {
        lemma_extended_grows(blocks, contents.drop_last(), first_mid, i);
        assert(contents.drop_last().take(i) == contents.take(i));
    }
}

/// `next_after` is not below its floor, and is above every number that one
/// of the values denotes.
pub proof fn lemma_next_after(values: Seq<Seq<char>>, floor: nat)
    ensures
        next_after(values, floor) >= floor,
        forall|i: int|
            0 <= i < values.len() && mid_number(#[trigger] values[i]) is Some ==> mid_number(
                values[i],
            )->0 < next_after(values, floor),
    decreases values.len(),
{
    if values.len() > 0 {
        lemma_next_after(values.drop_last(), floor);
        assert forall|i: int|
            0 <= i < values.len() && mid_number(#[trigger] values[i]) is Some implies mid_number(
            values[i],
        )->0 < next_after(values, floor) by {
            if i < values.len() - 1 {
                assert(values.drop_last()[i] == values[i]);
            }
        }
    }
}

/// The next unused `mid` is above every number that a `mid` value of a
/// block denotes.
pub proof fn lemma_next_mid(blocks: Seq<MediaDescriptionView>, b: int, i: int)
    requires
        0 <= b < blocks.len(),
        0 <= i < values_of(blocks[b].attributes, "mid"@).len(),
        mid_number(values_of(blocks[b].attributes, "mid"@)[i]) is Some,
    ensures
        mid_number(values_of(blocks[b].attributes, "mid"@)[i])->0 < next_mid(blocks),
    decreases blocks.len(),
{
    let last = values_of(blocks.last().attributes, "mid"@);
    lemma_next_after(last, next_mid(blocks.drop_last()));
    if b < blocks.len() - 1 {
        assert(blocks.drop_last()[b] == blocks[b]);
        lemma_next_mid(blocks.drop_last(), b, i);
    }
}

/// Whether an attribute of this key names the sources of a block.
pub fn names_sources(key: &str) -> (out: bool)
    ensures
        out == is_identity_key(key@),
{
    str_eq(key, "ssrc") || str_eq(key, "ssrc-group") || str_eq(key, "mid") || str_eq(key, "msid")
        || str_eq(key, "sendrecv") || str_eq(key, "sendonly")
}

/// Copies of `attributes` without those that name the sources of a block.
pub fn strip_identity(attributes: &Vec<Attribute>) -> (out: Vec<Attribute>)
    ensures
        out.deep_view() == without_identity(attributes.deep_view()),
{
    let mut out: Vec<Attribute> = Vec::new();
    let mut i: usize = 0;
    let ghost all = attributes.deep_view();
    proof {
        lemma_empty_deep_view(out);
    }
    while i < attributes.len()
        invariant
            i <= attributes.len(),
            all == attributes.deep_view(),
            out.deep_view() == without_identity(all.take(i as int)),
        decreases attributes.len() - i,
    {
        proof {
            lemma_deep_view_index(*attributes, i as int);
            assert(all.take(i + 1).drop_last() == all.take(i as int));
        }
        if !names_sources(attributes[i].key.as_str()) {
            let copy = attributes[i].clone();
            let ghost before = out;
            let ghost pushed = copy;
            out.push(copy);
            proof {
                lemma_push_deep_view(before, out, pushed);
            }
        }
        i += 1;
    }
    assert(all.take(attributes.len() as int) == all);
    out
}

/// The least number that is not below `floor` and is above every number
/// that one of `values` denotes.
pub fn next_after_values(values: &Vec<Vec<char>>, floor: u64) -> (out: u64)
    requires
        floor <= MID_LIMIT + 1,
    ensures
        out == next_after(values.deep_view(), floor as nat),
        out <= MID_LIMIT + 1,
{
    let mut next = floor;
    let mut i: usize = 0;
    let ghost all = values.deep_view();
    while i < values.len()
        invariant
            i <= values.len(),
            all == values.deep_view(),
            next <= MID_LIMIT + 1,
            next == next_after(all.take(i as int), floor as nat),
        decreases values.len() - i,
    {
        proof {
            lemma_deep_view_index(*values, i as int);
            lemma_chars_deep_view(values@[i as int]);
            assert(all.take(i + 1).drop_last() == all.take(i as int));
        }
        match parse_unsigned(&values[i], MID_LIMIT) {
            Some(n) => {
                if n >= next {
                    next = n + 1;
                }
            },
            None => {},
        }
        i += 1;
    }
    assert(all.take(values.len() as int) == all);
    next
}

/// The next unused `mid` of `blocks`.
pub fn next_mid_of(blocks: &Vec<MediaDescription>) -> (out: u64)
    ensures
        out == next_mid(blocks.deep_view()),
        out <= MID_LIMIT + 1,
{
    let mut next: u64 = 0;
    let mut b: usize = 0;
    let ghost all = blocks.deep_view();
    while b < blocks.len()
        invariant
            b <= blocks.len(),
            all == blocks.deep_view(),
            next <= MID_LIMIT + 1,
            next == next_mid(all.take(b as int)),
        decreases blocks.len() - b,
    {
        proof {
            lemma_deep_view_index(*blocks, b as int);
            assert(all.take(b + 1).drop_last() == all.take(b as int));
        }
        next = next_after_values(&values_for(&blocks[b].attributes, "mid"), next);
        b += 1;
    }
    assert(all.take(blocks.len() as int) == all);
    next
}

/// Appends to `blocks` the blocks that `content` adds to them. `held` is
/// the number of blocks that were there before any was added, and `next`
/// the `mid` of the first block that is added to those. Returns whether
/// the new blocks could be numbered; `blocks` is as it was where they
/// could not.
pub fn append_sources(
    blocks: &mut Vec<MediaDescription>,
    content: &Content,
    held: usize,
    next: u64,
) -> (ok: bool)
    requires
        held <= old(blocks).len(),
        next <= MID_LIMIT + 1,
    ensures
        ok == mids_fit(
            (next + (old(blocks).len() - held)) as nat,
            blocks_for(
                old(blocks).deep_view(),
                content@,
                (next + (old(blocks).len() - held)) as nat,
            ).len(),
        ),
        ok ==> final(blocks).deep_view() == old(blocks).deep_view() + blocks_for(
            old(blocks).deep_view(),
            content@,
            (next + (old(blocks).len() - held)) as nat,
        ),
        !ok ==> final(blocks).deep_view() == old(blocks).deep_view(),
        final(blocks)@.len() >= old(blocks)@.len(),
        final(blocks)@.subrange(0, old(blocks)@.len() as int) == old(blocks)@,
{
    let ghost start = blocks.deep_view();
    let ghost first_mid = (next + (blocks.len() - held)) as nat;
    let given = blocks.len();
    proof {
        assert(start + Seq::<MediaDescriptionView>::empty() =~= start);
        assert(blocks@.subrange(0, given as int) =~= blocks@);
    }
    let description = match &content.description {
        Some(description) => description,
        None => {
            return true;
        },
    };
    let mut at: usize = 0;
    while at < blocks.len() && blocks[at].media_name.media != description.media
        invariant
            at <= blocks.len(),
            start == blocks.deep_view(),
            *blocks == *old(blocks),
            forall|k: int|
                0 <= k < at ==> (#[trigger] start[k]).media_name.media != description@.media,
        decreases blocks.len() - at,
    {
        proof {
            lemma_deep_view_index(*blocks, at as int);
        }
        at += 1;
    }
    proof {
        if at < blocks.len() {
            lemma_deep_view_index(*blocks, at as int);
        }
        lemma_block_index(start, description@.media, at as int);
    }
    if at >= blocks.len() {
        return true;
    }
    let template = MediaDescription {
        media_name: blocks[at].media_name.clone(),
        media_title: clone_text(&blocks[at].media_title),
        connection_information: match &blocks[at].connection_information {
            Some(c) => Some(c.clone()),
            None => None,
        },
        bandwidth: clone_bandwidths(&blocks[at].bandwidth),
        encryption_key: clone_text(&blocks[at].encryption_key),
        attributes: strip_identity(&blocks[at].attributes),
    };
    let groups = group_sources(description);
    let ghost entries = groups.deep_view();
    let ghost wanted = blocks_for(start, content@, first_mid);
    let mut k: usize = 0;
    proof {
        assert(start + wanted.take(0) =~= start);
    }
    while k < groups.len()
        invariant
            k <= groups.len(),
            at < start.len(),
            held <= given,
            given == start.len(),
            next <= MID_LIMIT + 1,
            first_mid == next + (given - held),
            content.description == Some(*description),
            entries == groups.deep_view(),
            entries == grouped(description@),
            template@ == (MediaDescriptionView {
                attributes: without_identity(start[at as int].attributes),
                ..start[at as int]
            }),
            block_index(start, description@.media) == at,
            wanted == blocks_for(start, content@, first_mid),
            wanted.len() == groups.len(),
            blocks@.len() == given + k,
            blocks@.subrange(0, given as int) == old(blocks)@,
            start == old(blocks).deep_view(),
            k > 0 ==> first_mid + k <= MID_LIMIT + 1,
            blocks.deep_view() == start + wanted.take(k as int),
        decreases groups.len() - k,
    {
        let offset = (blocks.len() - held) as u64;
        if next > MID_LIMIT || offset > MID_LIMIT - next {
            blocks.truncate(given);
            proof {
                assert(blocks.deep_view() =~= start);
            }
            return false;
        }
        let mut block = template.clone();
        let ghost before = block.attributes;
        let mid = Attribute::with_value("mid", decimal_string(next + offset));
        block.attributes.push(mid);
        proof {
            lemma_push_deep_view(before, block.attributes, mid);
        }
        let block = populate_media_description_from_sources(block, &groups[k].1, groups[k].0);
        proof {
            lemma_deep_view_index(groups, k as int);
            assert(block@.attributes =~= added_block(
                start[at as int],
                entries[k as int],
                first_mid + k as nat,
            ).attributes);
            assert(block@ == wanted[k as int]);
        }
        let ghost prior = *blocks;
        blocks.push(block);
        proof {
            lemma_push_deep_view(prior, *blocks, block);
            lemma_take_next(wanted, k as int);
            assert((start + wanted.take(k as int)).push(wanted[k as int]) =~= start + wanted.take(
                k + 1,
            ));
            assert(blocks@.subrange(0, given as int) =~= prior@.subrange(0, given as int));
        }
        k += 1;
    }
    proof {
        assert(wanted.take(groups.len() as int) == wanted);
    }
    true
}

impl SessionDescription {
    /// Adds a block for each source group of each content of `jingle` whose
    /// media type the description has a block of; see [`with_sources`]. Codecs
    /// and transport are those of the first block of the media type, and the
    /// new blocks are numbered from the next unused `mid` on.
    ///
    /// Fails with `InvalidSignalingDocument`, and leaves the description as
    /// it is, where a new block would get a `mid` above [`MID_LIMIT`].
    pub fn add_sources_from_jingle(&mut self, jingle: &Jingle) -> (out: Result<(), Error>)
        ensures
            out is Ok <==> sources_fit(old(self)@.media_descriptions, jingle@.contents),
            out is Ok ==> final(self)@ == (SessionDescriptionView {
                media_descriptions: with_sources(
                    old(self)@.media_descriptions,
                    jingle@.contents,
                ),
                ..old(self)@
            }),
            out is Err ==> out == Err::<(), Error>(Error::InvalidSignalingDocument),
            out is Err ==> final(self)@ == old(self)@,
    {
        let ghost start = self@;
        let ghost all = jingle.contents.deep_view();
        let ghost given = self.media_descriptions;
        let held = self.media_descriptions.len();
        let next = next_mid_of(&self.media_descriptions);
        let mut i: usize = 0;
        proof {
            assert(self.media_descriptions@.subrange(0, held as int)
                =~= self.media_descriptions@);
        }
        while i < jingle.contents.len()
            invariant
                i <= jingle.contents.len(),
                all == jingle.contents.deep_view(),
                start == old(self)@,
                held == start.media_descriptions.len(),
                next == next_mid(start.media_descriptions),
                next <= MID_LIMIT + 1,
                self.media_descriptions@.len() >= held,
                self.media_descriptions@.subrange(0, held as int) == given@,
                start.media_descriptions == given.deep_view(),
                self@ == (SessionDescriptionView {
                    media_descriptions: extended(
                        start.media_descriptions,
                        all.take(i as int),
                        next as nat,
                    ),
                    ..start
                }),
                mids_fit(next as nat, (self.media_descriptions@.len() - held) as nat),
            decreases jingle.contents.len() - i,
        {
            let ghost before = self.media_descriptions;
            proof {
                lemma_deep_view_index(jingle.contents, i as int);
                assert(all.take(i + 1).drop_last() == all.take(i as int));
            }
            if !append_sources(&mut self.media_descriptions, &jingle.contents[i], held, next) {
                proof {
                    lemma_extended_grows(start.media_descriptions, all, next as nat, i + 1);
                }
                self.media_descriptions.truncate(held);
                proof {
                    assert(self.media_descriptions@ =~= given@);
                    assert(self.media_descriptions.deep_view() =~= given.deep_view());
                }
                return Err(Error::InvalidSignalingDocument);
            }
            proof {
                assert(self.media_descriptions@.subrange(0, held as int)
                    =~= before@.subrange(0, held as int));
                let first = (next + (before@.len() - held)) as nat;
                let added = blocks_for(before.deep_view(), all[i as int], first);
                assert(mids_fit(first, added.len()));
                assert(before.deep_view().len() == before@.len());
                assert(self.media_descriptions.deep_view().len() == self.media_descriptions@.len());
                assert(self.media_descriptions.deep_view().len() == before.deep_view().len()
                    + added.len());
                assert(self.media_descriptions@.len() - held == (before@.len() - held)
                    + added.len());
            }
            i += 1;
        }
        proof {
            assert(all.take(jingle.contents.len() as int) == all);
        }
        Ok(())
    }

    /// Taking sources out of a session description is not provided: fails
    /// with `Unsupported` and leaves the description as it is.
    pub fn remove_sources_from_jingle(&mut self, jingle: &Jingle) -> (out: Result<(), Error>)
        ensures
            out == Err::<(), Error>(Error::Unsupported),
            *final(self) == *old(self),
    {
        Err(Error::Unsupported)
    }
}

} // verus!

//! What holds of the conversions as a whole.

use vstd::prelude::*;
use vstd::seq_lib::{lemma_multiset_commutative, to_multiset_build};
use crate::decode::{content_index, contents_of, fingerprint_of};
use crate::description::{
    first_value, values_of, AttributeView, MediaDescriptionView, OriginView, SessionDescriptionView,
};
use crate::encode::{
    block_attributes, blocks_of, candidate_head, candidate_text, codec_lines, codecs_complete,
    content_extmaps_sound, content_sound, contents_sound, extmap_lines, generation_text,
    identity_attributes, related_text, session_of, setup_lines, trailing_lines,
};
use crate::error::Error;
use crate::grouping::{
    declared, grouped, in_some_group, is_mixed, kept, members, resolve, ungrouped,
};
use crate::identity::identity_sound;
use crate::jingle::{
    AlgoView, CandidateType, CandidateView, ContentView, JingleView, RtpDescriptionView,
    SourceGroupView, SourceView, TransportView,
};
use crate::names::{hash_from_name, hash_name, is_further_hash_name};
use crate::roundtrip::{
    free_of, lemma_block_split, lemma_decimal, lemma_decimal_read, lemma_identity_ranked,
    lemma_key_ranks, lemma_part_ranks, lemma_ranked_lacks, lemma_split_join, lemma_values_all,
    lemma_values_concat, mid_line, rtcp_line,
};
use crate::text::{decimal, find, join, lemma_find, split, split_once};
use crate::update::{
    block_index, blocks_for, extended, is_identity_key, lemma_next_mid, next_mid, sources_fit,
    with_sources, without_identity, MID_LIMIT,
};
use crate::xml::{indented, lines, prefixed, without_return};

verus! {

/// Parting entries by whether they are mixed loses none and adds none.
pub proof fn lemma_kept_len(entries: Seq<(Option<SourceGroupView>, Seq<SourceView>)>)
    ensures
        kept(entries, true).len() + kept(entries, false).len() == entries.len(),
    decreases entries.len(),
{
    if entries.len() > 0 {
        lemma_kept_len(entries.drop_last());
    }
}

/// Each entry that is kept is of the kind that was asked for.
pub proof fn lemma_kept_kind(
    entries: Seq<(Option<SourceGroupView>, Seq<SourceView>)>,
    mixed: bool,
    k: int,
)
    requires
        0 <= k < kept(entries, mixed).len(),
    ensures
        is_mixed(kept(entries, mixed)[k].1) == mixed,
    decreases entries.len(),
{
    if entries.len() > 0 {
        let before = kept(entries.drop_last(), mixed);
        if k < before.len() {
            lemma_kept_kind(entries.drop_last(), mixed, k);
        }
    }
}

/// The number of sources that no group names.
pub open spec fn loose_count(sources: Seq<SourceView>, groups: Seq<SourceGroupView>) -> nat
    decreases sources.len(),
{
    if sources.len() == 0 {
        0
    } else {
        let before = loose_count(sources.drop_last(), groups);
        if in_some_group(groups, sources.last().id) {
            before
        } else {
            before + 1
        }
    }
}

/// There is one entry for each source that no group names.
pub proof fn lemma_ungrouped_len(sources: Seq<SourceView>, groups: Seq<SourceGroupView>)
    ensures
        ungrouped(sources, groups).len() == loose_count(sources, groups),
    decreases sources.len(),
{
    if sources.len() > 0 {
        lemma_ungrouped_len(sources.drop_last(), groups);
    }
}

/// A description with K declared source groups and U sources that no group
/// names has K + U source groups.
pub proof fn lemma_group_count(description: RtpDescriptionView)
    ensures
        grouped(description).len() == description.ssrc_groups.len() + loose_count(
            description.ssrcs,
            description.ssrc_groups,
        ),
{
    let loose = ungrouped(description.ssrcs, description.ssrc_groups);
    let named = declared(description.ssrcs, description.ssrc_groups);
    lemma_ungrouped_len(description.ssrcs, description.ssrc_groups);
    lemma_kept_len(loose + named);
}

/// In the source groups of a description, every group with a mixed source
/// stands before every group without one.
pub proof fn lemma_mixed_first(description: RtpDescriptionView, i: int, j: int)
    requires
        0 <= i < j < grouped(description).len(),
        is_mixed(grouped(description)[j].1),
    ensures
        is_mixed(grouped(description)[i].1),
{
    let entries = ungrouped(description.ssrcs, description.ssrc_groups) + declared(
        description.ssrcs,
        description.ssrc_groups,
    );
    let first = kept(entries, true);
    let second = kept(entries, false);
    if j >= first.len() {
        lemma_kept_kind(entries, false, j - first.len());
    } else {
        lemma_kept_kind(entries, true, i);
    }
}

/// The sources of `entries`, entry after entry.
pub open spec fn all_members(entries: Seq<(Option<SourceGroupView>, Seq<SourceView>)>) -> Seq<
    SourceView,
>
    decreases entries.len(),
{
    if entries.len() == 0 {
        Seq::empty()
    } else {
        all_members(entries.drop_last()) + entries.last().1
    }
}

/// The SSRCs that `groups` name as members, group after group.
pub open spec fn named_ids(groups: Seq<SourceGroupView>) -> Seq<u32>
    decreases groups.len(),
{
    if groups.len() == 0 {
        Seq::empty()
    } else {
        named_ids(groups.drop_last()) + groups.last().sources
    }
}

/// Whether no two of `sources` have the same SSRC.
pub open spec fn distinct_ssrcs(sources: Seq<SourceView>) -> bool {
    forall|i: int, j: int|
        0 <= i < j < sources.len() ==> (#[trigger] sources[i]).id != (#[trigger] sources[j]).id
}

/// The members of entries put together are those of the one and those of the other.
pub proof fn lemma_all_members_concat(
    a: Seq<(Option<SourceGroupView>, Seq<SourceView>)>,
    b: Seq<(Option<SourceGroupView>, Seq<SourceView>)>,
)
    ensures
        all_members(a + b) == all_members(a) + all_members(b),
    decreases b.len(),
{
    if b.len() == 0 {
        assert(a + b == a);
        assert(all_members(a) + all_members(b) =~= all_members(a));
    } else {
        lemma_all_members_concat(a, b.drop_last());
        assert((a + b).drop_last() == a + b.drop_last());
        assert((a + b).last() == b.last());
        assert(all_members(a + b) =~= all_members(a) + all_members(b));
    }
}

/// Parting entries by whether they are mixed keeps their members, each as
/// often as it occurred.
pub proof fn lemma_kept_members(entries: Seq<(Option<SourceGroupView>, Seq<SourceView>)>)
    ensures
        all_members(kept(entries, true)).to_multiset().add(
            all_members(kept(entries, false)).to_multiset(),
        ) == all_members(entries).to_multiset(),
    decreases entries.len(),
{
    broadcast use vstd::multiset::group_multiset_axioms;

    if entries.len() == 0 {
        let none = Seq::<SourceView>::empty();
        assert(all_members(kept(entries, true)) == none);
        assert(all_members(kept(entries, false)) == none);
        assert(all_members(entries) == none);
        none.to_multiset_ensures();
        vstd::multiset::lemma_multiset_empty_len(none.to_multiset());
        assert(all_members(kept(entries, true)).to_multiset().add(
            all_members(kept(entries, false)).to_multiset(),
        ) =~= all_members(entries).to_multiset());
    } else {
        let before = entries.drop_last();
        let last = entries.last();
        lemma_kept_members(before);
        lemma_multiset_commutative(all_members(before), last.1);
        if is_mixed(last.1) {
            assert(kept(entries, true).drop_last() == kept(before, true));
            lemma_multiset_commutative(all_members(kept(before, true)), last.1);
        } else {
            assert(kept(entries, false).drop_last() == kept(before, false));
            lemma_multiset_commutative(all_members(kept(before, false)), last.1);
        }
        assert(all_members(kept(entries, true)).to_multiset().add(
            all_members(kept(entries, false)).to_multiset(),
        ) =~= all_members(entries).to_multiset());
    }
}

/// A group names an SSRC just when it stands among the SSRCs that the groups name.
pub proof fn lemma_named_ids(groups: Seq<SourceGroupView>, id: u32)
    ensures
        in_some_group(groups, id) == named_ids(groups).contains(id),
    decreases groups.len(),
{
    if groups.len() > 0 {
        let before = groups.drop_last();
        let last = groups.last();
        lemma_named_ids(before, id);
        if in_some_group(groups, id) {
            let g = choose|g: int|
                0 <= g < groups.len() && (#[trigger] groups[g]).sources.contains(id);
            if g < before.len() {
                assert(before[g] == groups[g]);
                assert(in_some_group(before, id));
                let at = choose|k: int|
                    0 <= k < named_ids(before).len() && named_ids(before)[k] == id;
                assert(named_ids(groups)[at] == id);
            } else {
                let m = choose|m: int| 0 <= m < last.sources.len() && last.sources[m] == id;
                assert(named_ids(groups)[named_ids(before).len() + m] == id);
            }
        }
        if named_ids(groups).contains(id) {
            let at = choose|k: int| 0 <= k < named_ids(groups).len() && named_ids(groups)[k] == id;
            if at < named_ids(before).len() {
                assert(named_ids(before)[at] == id);
                assert(named_ids(before).contains(id));
                let g = choose|g: int|
                    0 <= g < before.len() && (#[trigger] before[g]).sources.contains(id);
                assert(groups[g] == before[g]);
            } else {
                assert(last.sources[at - named_ids(before).len()] == id);
                assert(last.sources.contains(id));
                assert(groups[groups.len() - 1] == last);
            }
        }
    }
}

/// The sources that SSRCs put together stand for are those of the one and
/// those of the other.
pub proof fn lemma_members_concat(sources: Seq<SourceView>, a: Seq<u32>, b: Seq<u32>)
    ensures
        members(sources, a + b) == members(sources, a) + members(sources, b),
    decreases b.len(),
{
    if b.len() == 0 {
        assert(a + b == a);
        assert(members(sources, a) + members(sources, b) =~= members(sources, a));
    } else {
        lemma_members_concat(sources, a, b.drop_last());
        assert((a + b).drop_last() == a + b.drop_last());
        assert((a + b).last() == b.last());
        assert(members(sources, a + b) =~= members(sources, a) + members(sources, b));
    }
}

/// The members of the declared groups are the sources that the named SSRCs stand for.
pub proof fn lemma_declared_members(sources: Seq<SourceView>, groups: Seq<SourceGroupView>)
    ensures
        all_members(declared(sources, groups)) == members(sources, named_ids(groups)),
    decreases groups.len(),
{
    if groups.len() > 0 {
        let before = groups.drop_last();
        lemma_declared_members(sources, before);
        assert(declared(sources, groups).drop_last() =~= declared(sources, before));
        lemma_members_concat(sources, named_ids(before), groups.last().sources);
    }
}

/// A source whose SSRC no other source has is what its SSRC stands for.
pub proof fn lemma_resolve_none(sources: Seq<SourceView>, id: u32)
    requires
        forall|k: int| 0 <= k < sources.len() ==> (#[trigger] sources[k]).id != id,
    ensures
        resolve(sources, id) is None,
    decreases sources.len(),
{
    if sources.len() > 0 {
        assert(sources[sources.len() - 1].id != id);
        assert forall|k: int| 0 <= k < sources.drop_last().len() implies (
        #[trigger] sources.drop_last()[k]).id != id by {
            assert(sources.drop_last()[k] == sources[k]);
        }
        lemma_resolve_none(sources.drop_last(), id);
    }
}

/// One more source, of an SSRC that `ids` do not hold, changes nothing in
/// what `ids` stand for.
pub proof fn lemma_members_unnamed(sources: Seq<SourceView>, source: SourceView, ids: Seq<u32>)
    requires
        !ids.contains(source.id),
    ensures
        members(sources.push(source), ids) == members(sources, ids),
    decreases ids.len(),
{
    if ids.len() > 0 {
        assert(ids[ids.len() - 1] != source.id);
        assert forall|k: int| 0 <= k < ids.drop_last().len() implies ids.drop_last()[k]
            != source.id by {
            assert(ids.drop_last()[k] == ids[k]);
        }
        lemma_members_unnamed(sources, source, ids.drop_last());
        assert(sources.push(source).drop_last() == sources);
    }
}

/// One more source, of an SSRC that `ids` hold once and no other source has,
/// is one more among what `ids` stand for.
pub proof fn lemma_members_named(sources: Seq<SourceView>, source: SourceView, ids: Seq<u32>)
    requires
        ids.no_duplicates(),
        ids.contains(source.id),
        forall|k: int| 0 <= k < sources.len() ==> (#[trigger] sources[k]).id != source.id,
    ensures
        members(sources.push(source), ids).to_multiset() == members(
            sources,
            ids,
        ).to_multiset().insert(source),
    decreases ids.len(),
{
    let longer = sources.push(source);
    assert(longer.drop_last() == sources);
    let before = ids.drop_last();
    let last = ids.last();
    assert forall|i: int, j: int| 0 <= i < before.len() && 0 <= j < before.len() && i
        != j implies before[i] != before[j] by {
        assert(before[i] == ids[i] && before[j] == ids[j]);
    }
    if last == source.id {
        assert(!before.contains(source.id)) by {
            if before.contains(source.id) {
                let k = choose|k: int| 0 <= k < before.len() && before[k] == source.id;
                assert(ids[k] == ids[ids.len() - 1]);
            }
        }
        lemma_members_unnamed(sources, source, before);
        lemma_resolve_none(sources, source.id);
        to_multiset_build(members(sources, before), source);
    } else {
        assert(before.contains(source.id)) by {
            let k = choose|k: int| 0 <= k < ids.len() && ids[k] == source.id;
            assert(before[k] == source.id);
        }
        lemma_members_named(sources, source, before);
        match resolve(sources, last) {
            Some(found) => {
                to_multiset_build(members(longer, before), found);
                to_multiset_build(members(sources, before), found);
                assert(members(sources, before).to_multiset().insert(source).insert(found)
                    =~= members(sources, before).to_multiset().insert(found).insert(source));
            },
            None => {},
        }
    }
}

/// The sources that no group names, with the sources that the named SSRCs
/// stand for, are the sources, each once.
pub proof fn lemma_loose_and_named(sources: Seq<SourceView>, groups: Seq<SourceGroupView>)
    requires
        distinct_ssrcs(sources),
        named_ids(groups).no_duplicates(),
    ensures
        all_members(ungrouped(sources, groups)).to_multiset().add(
            members(sources, named_ids(groups)).to_multiset(),
        ) == sources.to_multiset(),
    decreases sources.len(),
{
    broadcast use vstd::multiset::group_multiset_axioms;

    let ids = named_ids(groups);
    if sources.len() == 0 {
        lemma_members_of_none(ids);
        let none = Seq::<SourceView>::empty();
        assert(sources =~= none);
        assert(all_members(ungrouped(sources, groups)) == none);
        assert(members(sources, ids) == none);
        none.to_multiset_ensures();
        vstd::multiset::lemma_multiset_empty_len(none.to_multiset());
        assert(all_members(ungrouped(sources, groups)).to_multiset().add(
            members(sources, ids).to_multiset(),
        ) =~= sources.to_multiset());
    } else {
        let before = sources.drop_last();
        let last = sources.last();
        assert(before.push(last) == sources);
        assert(distinct_ssrcs(before)) by {
            assert forall|i: int, j: int| 0 <= i < j < before.len() implies (
            #[trigger] before[i]).id != (#[trigger] before[j]).id by {
                assert(before[i] == sources[i] && before[j] == sources[j]);
            }
        }
        assert forall|k: int| 0 <= k < before.len() implies (#[trigger] before[k]).id
            != last.id by {
            assert(before[k] == sources[k]);
            assert(sources[sources.len() - 1] == last);
        }
        lemma_loose_and_named(before, groups);
        lemma_named_ids(groups, last.id);
        to_multiset_build(before, last);
        let loose = all_members(ungrouped(before, groups));
        if in_some_group(groups, last.id) {
            lemma_members_named(before, last, ids);
            assert(loose.to_multiset().add(members(before, ids).to_multiset().insert(last))
                =~= loose.to_multiset().add(members(before, ids).to_multiset()).insert(last));
        } else {
            lemma_members_unnamed(before, last, ids);
            let entry: (Option<SourceGroupView>, Seq<SourceView>) = (None, seq![last]);
            assert(ungrouped(sources, groups).drop_last() == ungrouped(before, groups));
            assert(all_members(ungrouped(sources, groups)) =~= loose.push(last));
            to_multiset_build(loose, last);
            assert(loose.to_multiset().insert(last).add(members(before, ids).to_multiset())
                =~= loose.to_multiset().add(members(before, ids).to_multiset()).insert(last));
        }
    }
}

/// Where there are no sources, SSRCs stand for none.
pub proof fn lemma_members_of_none(ids: Seq<u32>)
    ensures
        members(Seq::empty(), ids) == Seq::<SourceView>::empty(),
    decreases ids.len(),
{
    if ids.len() > 0 {
        lemma_members_of_none(ids.drop_last());
    }
}

/// Where no two sources of a description have the same SSRC and no SSRC is
/// named twice by its source groups, each source stands in one of its
/// source groups and in one only.
pub proof fn lemma_every_source_once(description: RtpDescriptionView)
    requires
        distinct_ssrcs(description.ssrcs),
        named_ids(description.ssrc_groups).no_duplicates(),
    ensures
        all_members(grouped(description)).to_multiset() == description.ssrcs.to_multiset(),
{
    let sources = description.ssrcs;
    let groups = description.ssrc_groups;
    let loose = ungrouped(sources, groups);
    let named = declared(sources, groups);
    let entries = loose + named;
    lemma_all_members_concat(kept(entries, true), kept(entries, false));
    lemma_multiset_commutative(all_members(kept(entries, true)), all_members(kept(entries, false)));
    lemma_kept_members(entries);
    lemma_all_members_concat(loose, named);
    lemma_multiset_commutative(all_members(loose), all_members(named));
    lemma_declared_members(sources, groups);
    lemma_loose_and_named(sources, groups);
}

/// Each entry that is kept is one of the entries.
pub proof fn lemma_kept_within(
    entries: Seq<(Option<SourceGroupView>, Seq<SourceView>)>,
    mixed: bool,
    k: int,
)
    requires
        0 <= k < kept(entries, mixed).len(),
    ensures
        entries.contains(kept(entries, mixed)[k]),
    decreases entries.len(),
{
    if entries.len() > 0 {
        let shorter = entries.drop_last();
        let before = kept(shorter, mixed);
        if k < before.len() {
            lemma_kept_within(shorter, mixed, k);
            let j = choose|j: int| 0 <= j < shorter.len() && shorter[j] == before[k];
            assert(entries[j] == before[k]);
        } else {
            assert(entries[entries.len() - 1] == entries.last());
        }
    }
}

/// Each entry of the sources that no group names holds one of the sources,
/// alone and without a group.
pub proof fn lemma_ungrouped_within(sources: Seq<SourceView>, groups: Seq<SourceGroupView>, k: int)
    requires
        0 <= k < ungrouped(sources, groups).len(),
    ensures
        ungrouped(sources, groups)[k].0 is None,
        exists|i: int|
            0 <= i < sources.len() && ungrouped(sources, groups)[k].1 == seq![
                #[trigger] sources[i],
            ],
    decreases sources.len(),
{
    if sources.len() > 0 {
        let shorter = sources.drop_last();
        let before = ungrouped(shorter, groups);
        if k < before.len() {
            lemma_ungrouped_within(shorter, groups, k);
            let i = choose|i: int|
                0 <= i < shorter.len() && before[k].1 == seq![#[trigger] shorter[i]];
            assert(sources[i] == shorter[i]);
        } else {
            assert(sources[sources.len() - 1] == sources.last());
        }
    }
}

/// The source that an SSRC stands for is one of the sources and has that SSRC.
pub proof fn lemma_resolve_within(sources: Seq<SourceView>, id: u32)
    ensures
        resolve(sources, id) matches Some(source) ==> sources.contains(source) && source.id == id,
    decreases sources.len(),
{
    if sources.len() > 0 {
        if sources.last().id == id {
            assert(sources[sources.len() - 1] == sources.last());
        } else {
            let shorter = sources.drop_last();
            lemma_resolve_within(shorter, id);
            if let Some(source) = resolve(shorter, id) {
                let j = choose|j: int| 0 <= j < shorter.len() && shorter[j] == source;
                assert(sources[j] == source);
            }
        }
    }
}

/// The sources that SSRCs stand for are among the sources and have SSRCs
/// among these; where no SSRC is named twice, no two of them have the same.
pub proof fn lemma_members_within(sources: Seq<SourceView>, ids: Seq<u32>)
    ensures
        forall|k: int|
            0 <= k < members(sources, ids).len() ==> sources.contains(
                #[trigger] members(sources, ids)[k],
            ) && ids.contains(members(sources, ids)[k].id),
        ids.no_duplicates() ==> distinct_ssrcs(members(sources, ids)),
    decreases ids.len(),
{
    if ids.len() > 0 {
        let shorter = ids.drop_last();
        let before = members(sources, shorter);
        let all = members(sources, ids);
        lemma_members_within(sources, shorter);
        lemma_resolve_within(sources, ids.last());
        assert forall|k: int| 0 <= k < all.len() implies sources.contains(#[trigger] all[k])
            && ids.contains(all[k].id) by {
            if k < before.len() {
                assert(all[k] == before[k]);
                let at = choose|at: int| 0 <= at < shorter.len() && shorter[at] == before[k].id;
                assert(ids[at] == before[k].id);
            } else {
                assert(ids[ids.len() - 1] == all[k].id);
            }
        }
        if ids.no_duplicates() {
            assert(shorter.no_duplicates()) by {
                assert forall|i: int, j: int|
                    0 <= i < shorter.len() && 0 <= j < shorter.len() && i != j implies shorter[i]
                    != shorter[j] by {
                    assert(ids[i] == shorter[i] && ids[j] == shorter[j]);
                }
            }
            assert forall|i: int, j: int| 0 <= i < j < all.len() implies (#[trigger] all[i]).id != (
            #[trigger] all[j]).id by {
                assert(all[i] == before[i]);
                if j < before.len() {
                    assert(all[j] == before[j]);
                } else {
                    let at = choose|at: int| 0 <= at < shorter.len() && shorter[at] == before[i].id;
                    assert(ids[at] == before[i].id);
                    assert(all[j].id == ids[ids.len() - 1]);
                }
            }
        }
    }
}

/// Where the source groups name no SSRC twice, none of them does.
pub proof fn lemma_group_ids_distinct(groups: Seq<SourceGroupView>, g: int)
    requires
        named_ids(groups).no_duplicates(),
        0 <= g < groups.len(),
    ensures
        groups[g].sources.no_duplicates(),
    decreases groups.len(),
{
    let before = named_ids(groups.drop_last());
    let last = groups.last().sources;
    let all = named_ids(groups);
    if g == groups.len() - 1 {
        assert forall|i: int, j: int|
            0 <= i < last.len() && 0 <= j < last.len() && i != j implies last[i] != last[j] by {
            assert(all[before.len() + i] == last[i]);
            assert(all[before.len() + j] == last[j]);
        }
    } else {
        assert forall|i: int, j: int|
            0 <= i < before.len() && 0 <= j < before.len() && i != j implies before[i]
            != before[j] by {
            assert(all[i] == before[i] && all[j] == before[j]);
        }
        lemma_group_ids_distinct(groups.drop_last(), g);
        assert(groups.drop_last()[g] == groups[g]);
    }
}

/// Whether an entry is one that a description founds: one of its sources,
/// alone and without a group, or one of its declared groups with the
/// sources that its members stand for.
pub open spec fn entry_of(
    description: RtpDescriptionView,
    entry: (Option<SourceGroupView>, Seq<SourceView>),
) -> bool {
    match entry.0 {
        None => exists|i: int|
            0 <= i < description.ssrcs.len() && entry.1 == seq![#[trigger] description.ssrcs[i]],
        Some(group) => description.ssrc_groups.contains(group) && entry.1 == members(
            description.ssrcs,
            group.sources,
        ),
    }
}

/// Each source group of a description is one that the description founds.
pub proof fn lemma_entry_of(description: RtpDescriptionView, k: int)
    requires
        0 <= k < grouped(description).len(),
    ensures
        entry_of(description, grouped(description)[k]),
{
    let sources = description.ssrcs;
    let groups = description.ssrc_groups;
    let loose = ungrouped(sources, groups);
    let named = declared(sources, groups);
    let entries = loose + named;
    let first = kept(entries, true);
    let entry = grouped(description)[k];
    if k < first.len() {
        lemma_kept_within(entries, true, k);
    } else {
        lemma_kept_within(entries, false, k - first.len());
    }
    let j = choose|j: int| 0 <= j < entries.len() && entries[j] == entry;
    if j < loose.len() {
        lemma_ungrouped_within(sources, groups, j);
    } else {
        let g = j - loose.len();
        assert(entries[j] == named[g]);
        assert(groups[g] == entry.0->0);
    }
}

/// A description with a source or a declared source group has a source
/// group.
pub proof fn lemma_some_group(description: RtpDescriptionView)
    requires
        description.ssrcs.len() > 0 || description.ssrc_groups.len() > 0,
    ensures
        grouped(description).len() >= 1,
{
    lemma_group_count(description);
    if description.ssrc_groups.len() == 0 {
        let groups = description.ssrc_groups;
        assert(!in_some_group(groups, description.ssrcs.last().id));
    }
}

/// The pieces between occurrences of a character hold it nowhere.
pub proof fn lemma_pieces_free(text: Seq<char>, c: char)
    ensures
        forall|i: int| 0 <= i < split(text, c).len() ==> free_of(#[trigger] split(text, c)[i], c),
    decreases text.len(),
{
    lemma_find(text, c);
    let at = find(text, c);
    if 0 <= at < text.len() {
        let rest = split(text.skip(at + 1), c);
        lemma_pieces_free(text.skip(at + 1), c);
        assert forall|i: int| 0 <= i < split(text, c).len() implies free_of(
            #[trigger] split(text, c)[i],
            c,
        ) by {
            if i > 0 {
                assert(split(text, c)[i] == rest[i - 1]);
            }
        }
    }
}

/// The lines of a text hold no line feed.
pub proof fn lemma_lines_free(text: Seq<char>)
    ensures
        forall|i: int| 0 <= i < lines(text).len() ==> free_of(#[trigger] lines(text)[i], '\n'),
{
    let pieces = split(text, '\n');
    lemma_pieces_free(text, '\n');
    assert forall|i: int| 0 <= i < lines(text).len() implies free_of(
        #[trigger] lines(text)[i],
        '\n',
    ) by {
        assert(free_of(pieces[i], '\n'));
    }
}

/// Whether lines are read again as they are from the text that they are
/// joined to: none holds a line feed or ends in a carriage return, and the
/// last is not empty.
pub open spec fn lines_kept(written: Seq<Seq<char>>) -> bool {
    &&& forall|i: int|
        0 <= i < written.len() ==> free_of(#[trigger] written[i], '\n') && without_return(
            written[i],
        ) == written[i]
    &&& written.len() > 0 ==> written.last().len() > 0
}

/// Lines that are kept, joined by line feeds, are the lines of the text
/// that they make.
pub proof fn lemma_lines_of_joined(written: Seq<Seq<char>>)
    requires
        lines_kept(written),
    ensures
        lines(join(written, "\n"@)) == written,
{
    reveal_strlit("\n");
    assert("\n"@ =~= seq!['\n']);
    if written.len() == 0 {
        assert(lines(join(written, "\n"@)) =~= written);
    } else {
        lemma_split_join(written, '\n');
        assert(lines(join(written, "\n"@)) =~= written);
    }
}

/// The lines that a step of indenting writes are kept where the prefix
/// holds no line feed and no line of the text ends in a carriage return,
/// and where the prefix is not empty and does not end in a carriage return
/// either, or no line of the text is empty.
pub proof fn lemma_indented_lines_kept(text: Seq<char>, prefix: Seq<char>)
    requires
        free_of(prefix, '\n'),
        forall|i: int|
            0 <= i < lines(text).len() ==> without_return(#[trigger] lines(text)[i]) == lines(
                text,
            )[i],
        (prefix.len() > 0 && prefix.last() != '\r') || (forall|i: int|
            0 <= i < lines(text).len() ==> (#[trigger] lines(text)[i]).len() > 0),
    ensures
        lines_kept(prefixed(lines(text), prefix)),
{
    let written = prefixed(lines(text), prefix);
    lemma_lines_free(text);
    assert forall|i: int| 0 <= i < written.len() implies free_of(#[trigger] written[i], '\n')
        && without_return(written[i]) == written[i] by {
        let line = lines(text)[i];
        assert(written[i] == prefix + line);
        assert(free_of(line, '\n'));
        assert(without_return(line) == line);
        if line.len() > 0 {
            assert((prefix + line).last() == line.last());
        } else {
            assert(prefix + line =~= prefix);
        }
    }
    if written.len() > 0 {
        assert(written.last() == prefix + lines(text).last());
    }
}

/// To indent a text by one prefix and what comes of it by a second is to
/// indent the text by the second prefix and then the first: where the first
/// prefix holds no line feed and no line of the text ends in a carriage
/// return, and where the first prefix is not empty and does not end in a
/// carriage return either, or no line of the text is empty.
pub proof fn lemma_indent_twice(text: Seq<char>, first: Seq<char>, second: Seq<char>)
    requires
        free_of(first, '\n'),
        forall|i: int|
            0 <= i < lines(text).len() ==> without_return(#[trigger] lines(text)[i]) == lines(
                text,
            )[i],
        (first.len() > 0 && first.last() != '\r') || (forall|i: int|
            0 <= i < lines(text).len() ==> (#[trigger] lines(text)[i]).len() > 0),
    ensures
        indented(indented(text, first), second) == indented(text, second + first),
{
    let written = prefixed(lines(text), first);
    lemma_indented_lines_kept(text, first);
    lemma_lines_of_joined(written);
    assert(prefixed(written, second) =~= prefixed(lines(text), second + first)) by {
        assert forall|i: int| 0 <= i < written.len() implies prefixed(written, second)[i]
            == prefixed(lines(text), second + first)[i] by {
            assert(second + (first + lines(text)[i]) =~= (second + first) + lines(text)[i]);
        }
    }
}

/// The line of a host candidate holds no related address and no related
/// port: its generation follows its type.
pub proof fn lemma_host_candidate_line(candidate: CandidateView)
    requires
        candidate.type_ == CandidateType::Host,
    ensures
        candidate_text(candidate) == candidate_head(candidate) + generation_text(candidate),
{
    assert(candidate_head(candidate) + Seq::<char>::empty() =~= candidate_head(candidate));
}

/// The line of a candidate that is no host candidate holds its related
/// address and its related port, where it has them, between its type and its
/// generation.
pub proof fn lemma_related_candidate_line(candidate: CandidateView)
    requires
        candidate.type_ != CandidateType::Host,
    ensures
        candidate.rel_addr matches Some(address) ==> (" raddr "@ + address).is_prefix_of(
            related_text(candidate),
        ),
        candidate.rel_port matches Some(port) ==> (" rport "@ + decimal(port as nat)).is_suffix_of(
            related_text(candidate),
        ),
        candidate_text(candidate) == candidate_head(candidate) + related_text(candidate)
            + generation_text(candidate),
{
    let address = match candidate.rel_addr {
        Some(address) => " raddr "@ + address,
        None => Seq::empty(),
    };
    let port = match candidate.rel_port {
        Some(port) => " rport "@ + decimal(port as nat),
        None => Seq::empty(),
    };
    assert(related_text(candidate) == address + port);
    assert((address + port).subrange(0, address.len() as int) =~= address);
    assert((address + port).subrange(address.len() as int, (address + port).len() as int) =~= port);
}

/// Every candidate line ends with ` generation <n>`.
pub proof fn lemma_candidate_line_end(candidate: CandidateView)
    ensures
        generation_text(candidate).is_suffix_of(candidate_text(candidate)),
{
    let text = candidate_text(candidate);
    let end = generation_text(candidate);
    assert(text.subrange(text.len() - end.len(), text.len() as int) =~= end);
}

/// The names of the hash functions SHA-1, SHA-256 and SHA-512 are
/// `sha-1`, `sha-256` and `sha-512`; a hash function that has a name is the
/// one that its name stands for, and a name that stands for a hash function
/// is the name of that function; a name stands for none unless it is one of
/// these three or a further hash function name.
pub proof fn lemma_hash_names(hash: AlgoView, name: Seq<char>)
    ensures
        hash_name(AlgoView::Sha1) == Some("sha-1"@),
        hash_name(AlgoView::Sha256) == Some("sha-256"@),
        hash_name(AlgoView::Sha512) == Some("sha-512"@),
        hash_name(hash) matches Some(n) ==> hash_from_name(n) == Some(hash),
        hash_from_name(name) matches Some(h) ==> hash_name(h) == Some(name),
        hash_from_name(name) is Some <==> name == "sha-1"@ || name == "sha-256"@ || name
            == "sha-512"@ || is_further_hash_name(name),
{
    reveal_strlit("sha-1");
    reveal_strlit("sha-256");
    reveal_strlit("sha-512");
    reveal_strlit("sha-224");
    reveal_strlit("sha-384");
    reveal_strlit("shake128");
    reveal_strlit("shake256");
    reveal_strlit("md5");
    reveal_strlit("md2");
    assert("sha-1"@.len() == 5);
    assert("sha-256"@[4] == '2');
    assert("sha-512"@[4] == '5');
    assert("sha-224"@[5] == '2');
    assert("sha-384"@[4] == '3');
    assert("shake128"@.len() == 8);
    assert("shake256"@.len() == 8);
    assert("shake128"@[3] == 'k');
    assert("md5"@.len() == 3);
    assert("md2"@.len() == 3);
}

/// A session with a fingerprint whose hash function has no name in SDP, on
/// a content that has a description, is not written: the conversion fails
/// with `InvalidSignalingDocument`, where the addresses of the parties
/// can be read.
pub proof fn lemma_unsupported_hash_fails(jingle: JingleView, origin: OriginView, i: int)
    requires
        identity_sound(jingle.initiator),
        identity_sound(jingle.responder),
        0 <= i < jingle.contents.len(),
        jingle.contents[i].description is Some,
        jingle.contents[i].transport is Some,
        jingle.contents[i].transport->0.fingerprint is Some,
        hash_name(jingle.contents[i].transport->0.fingerprint->0.hash) is None,
    ensures
        session_of(jingle, origin) == Err::<SessionDescriptionView, Error>(
            Error::InvalidSignalingDocument,
        ),
{
    assert(!content_sound(jingle.contents[i]));
}

/// A fingerprint whose hash function is named otherwise than by one of the
/// accepted names cannot be read.
pub proof fn lemma_unknown_hash_name_fails(
    attributes: Seq<AttributeView>,
    name: Seq<char>,
    digits: Seq<char>,
)
    requires
        first_value(attributes, "fingerprint"@) matches Some(text) && split_once(
            text,
            ' ',
        ) == Some((name, digits)),
        hash_from_name(name) is None,
    ensures
        fingerprint_of(attributes) is None,
{
}

/// Whether a content brings no source and no source group.
pub open spec fn brings_nothing(content: ContentView) -> bool {
    match content.description {
        Some(description) => description.ssrcs.len() == 0 && description.ssrc_groups.len() == 0,
        None => true,
    }
}

/// Adding the sources of contents that bring none leaves the blocks as they
/// are, and succeeds.
pub proof fn lemma_add_nothing(blocks: Seq<MediaDescriptionView>, contents: Seq<ContentView>)
    requires
        forall|i: int| 0 <= i < contents.len() ==> brings_nothing(#[trigger] contents[i]),
    ensures
        with_sources(blocks, contents) == blocks,
        sources_fit(blocks, contents),
{
    lemma_extend_nothing(blocks, contents, next_mid(blocks));
}

/// Contents that bring no source add no block, whatever the first `mid`.
pub proof fn lemma_extend_nothing(
    blocks: Seq<MediaDescriptionView>,
    contents: Seq<ContentView>,
    first_mid: nat,
)
    requires
        forall|i: int| 0 <= i < contents.len() ==> brings_nothing(#[trigger] contents[i]),
    ensures
        extended(blocks, contents, first_mid) == blocks,
    decreases contents.len(),
{
    if contents.len() > 0 {
        assert forall|i: int| 0 <= i < contents.drop_last().len() implies brings_nothing(
            #[trigger] contents.drop_last()[i],
        ) by {
            assert(contents.drop_last()[i] == contents[i]);
        }
        lemma_extend_nothing(blocks, contents.drop_last(), first_mid);
        let last = contents.last();
        assert(brings_nothing(contents[contents.len() - 1]));
        match last.description {
            Some(description) => {
                let entries = ungrouped(description.ssrcs, description.ssrc_groups) + declared(
                    description.ssrcs,
                    description.ssrc_groups,
                );
                assert(entries.len() == 0);
                assert(grouped(description).len() == 0);
            },
            None => {},
        }
        assert(blocks + blocks_for(blocks, last, first_mid) =~= blocks);
    }
}

/// Whether no two contents have the same name.
pub open spec fn distinct_names(contents: Seq<ContentView>) -> bool {
    forall|i: int, j: int|
        0 <= i < j < contents.len() ==> (#[trigger] contents[i]).name != (
        #[trigger] contents[j]).name
}

/// The contents that media blocks fold into have names that differ from
/// each other.
pub proof fn lemma_contents_distinct(blocks: Seq<MediaDescriptionView>)
    requires
        contents_of(blocks) is Some,
    ensures
        distinct_names(contents_of(blocks)->0),
    decreases blocks.len(),
{
    if blocks.len() > 0 {
        let block = blocks.last();
        let media = block.media_name.media;
        lemma_contents_distinct(blocks.drop_last());
        let held = contents_of(blocks.drop_last())->0;
        let read = contents_of(blocks)->0;
        let at = content_index(held, media);
        lemma_content_index_found(held, media);
        assert forall|i: int, j: int| 0 <= i < j < read.len() implies (#[trigger] read[i]).name != (
        #[trigger] read[j]).name by {
            if at < held.len() {
                assert(read[i].name == held[i].name);
                assert(read[j].name == held[j].name);
            } else if j < held.len() {
                assert(read[i] == held[i] && read[j] == held[j]);
            } else {
                assert(read[i] == held[i]);
                assert(read[j].name == media);
            }
        }
    }
}

/// `content_index` is the index of a content of the given name, with no
/// content of that name before it, or the number of contents where none
/// has the name.
pub proof fn lemma_content_index_found(contents: Seq<ContentView>, name: Seq<char>)
    ensures
        0 <= content_index(contents, name) <= contents.len(),
        content_index(contents, name) < contents.len() ==> contents[content_index(
            contents,
            name,
        )].name == name,
        forall|k: int|
            0 <= k < content_index(contents, name) ==> (#[trigger] contents[k]).name != name,
    decreases contents.len(),
{
    if contents.len() == 0 || contents[0].name == name {
    } else {
        let rest = contents.skip(1);
        lemma_content_index_found(rest, name);
        assert forall|k: int| 0 <= k < content_index(contents, name) implies (
        #[trigger] contents[k]).name != name by {
            if k > 0 {
                assert(rest[k - 1] == contents[k]);
            }
        }
    }
}

/// The `mid` of a block is written once in the block, as the number that
/// the block was written with.
pub proof fn lemma_block_mid(
    description: RtpDescriptionView,
    transport: Option<TransportView>,
    entry: (Option<SourceGroupView>, Seq<SourceView>),
    mid: nat,
)
    requires
        codecs_complete(description.payload_types),
    ensures
        values_of(
            block_attributes(description, transport, extmap_lines(description.hdrexts), entry, mid),
            "mid"@,
        ) == seq![decimal(mid)],
{
    lemma_key_ranks();
    lemma_part_ranks(description, transport, entry, mid);
    lemma_block_split(description, transport, entry, mid, "mid"@);
    lemma_ranked_lacks(codec_lines(description.payload_types), 0, 2, "mid"@);
    lemma_ranked_lacks(rtcp_line(), 3, 3, "mid"@);
    lemma_ranked_lacks(extmap_lines(description.hdrexts), 4, 4, "mid"@);
    lemma_ranked_lacks(setup_lines(transport), 5, 5, "mid"@);
    lemma_ranked_lacks(identity_attributes(entry.0, entry.1), 7, 12, "mid"@);
    lemma_ranked_lacks(trailing_lines(description, transport), 13, 17, "mid"@);
    lemma_values_all(mid_line(mid), "mid"@, seq![decimal(mid)]);
    let none = Seq::<Seq<char>>::empty();
    assert(none + none + none + none + seq![decimal(mid)] + none + none =~= seq![decimal(mid)]);
}

/// The blocks of a session carry the numbers from 0 on as their `mid`s, in
/// their order: the block at index `k` has the one `mid` `k`.
pub proof fn lemma_mids_dense(contents: Seq<ContentView>, k: int)
    requires
        contents_sound(contents),
        0 <= k < blocks_of(contents).len(),
    ensures
        values_of(blocks_of(contents)[k].attributes, "mid"@) == seq![decimal(k as nat)],
    decreases contents.len(),
{
    let before = contents.drop_last();
    let last = contents.last();
    let held = blocks_of(before);
    if k < held.len() {
        assert(contents_sound(before)) by {
            assert forall|i: int| 0 <= i < before.len() implies content_sound(#[trigger] before[i])
                && content_extmaps_sound(before[i]) by {
                assert(before[i] == contents[i]);
            }
        }
        lemma_mids_dense(before, k);
        assert(blocks_of(contents)[k] == held[k]);
    } else {
        assert(content_sound(contents[contents.len() - 1]));
        let description = last.description->0;
        let entries = grouped(description);
        let j = k - held.len();
        lemma_block_mid(description, last.transport, entries[j], held.len() + j as nat);
    }
}

/// Adding sources leaves the blocks that are there as they are: the new
/// blocks follow them.
pub proof fn lemma_sources_follow(
    blocks: Seq<MediaDescriptionView>,
    contents: Seq<ContentView>,
    first_mid: nat,
)
    ensures
        blocks.is_prefix_of(extended(blocks, contents, first_mid)),
    decreases contents.len(),
{
    if contents.len() > 0 {
        lemma_sources_follow(blocks, contents.drop_last(), first_mid);
        let before = extended(blocks, contents.drop_last(), first_mid);
        let all = extended(blocks, contents, first_mid);
        assert(all.subrange(0, blocks.len() as int) =~= before.subrange(0, blocks.len() as int));
    } else {
        assert(blocks.subrange(0, blocks.len() as int) =~= blocks);
    }
}

/// What is left of attributes without those that name the sources of a
/// block holds no `mid`.
pub proof fn lemma_without_identity_mid(attributes: Seq<AttributeView>)
    ensures
        values_of(without_identity(attributes), "mid"@) == Seq::<Seq<char>>::empty(),
    decreases attributes.len(),
{
    if attributes.len() > 0 {
        lemma_without_identity_mid(attributes.drop_last());
        let kept = without_identity(attributes);
        if !is_identity_key(attributes.last().key) {
            assert(kept.drop_last() == without_identity(attributes.drop_last()));
            assert(kept.last().key != "mid"@);
        }
    }
}

/// The blocks that are added for sources carry the numbers from
/// `first_mid` on as their `mid`s, each the one `mid` of its block: they
/// rise by one from block to block.
pub proof fn lemma_added_mids(
    blocks: Seq<MediaDescriptionView>,
    contents: Seq<ContentView>,
    first_mid: nat,
    k: int,
)
    requires
        blocks.len() <= k < extended(blocks, contents, first_mid).len(),
    ensures
        values_of(extended(blocks, contents, first_mid)[k].attributes, "mid"@) == seq![
            decimal((first_mid + (k - blocks.len())) as nat),
        ],
    decreases contents.len(),
{
    lemma_key_ranks();
    let before = extended(blocks, contents.drop_last(), first_mid);
    let last = contents.last();
    if contents.len() > 0 {
        lemma_sources_follow(blocks, contents.drop_last(), first_mid);
        if k < before.len() {
            lemma_added_mids(blocks, contents.drop_last(), first_mid, k);
        } else {
            let description = last.description->0;
            let at = block_index(before, description.media);
            let entry = grouped(description)[k - before.len()];
            let template = without_identity(before[at].attributes);
            let identity = identity_attributes(entry.0, entry.1);
            let added = extended(blocks, contents, first_mid)[k];
            let mid = (first_mid + (k - blocks.len())) as nat;
            assert(added.attributes == template + mid_line(mid) + identity);
            lemma_without_identity_mid(before[at].attributes);
            lemma_values_concat(template, mid_line(mid), "mid"@);
            lemma_values_concat(template + mid_line(mid), identity, "mid"@);
            lemma_values_all(mid_line(mid), "mid"@, seq![decimal(mid)]);
            lemma_identity_ranked(entry.0, entry.1);
            lemma_ranked_lacks(identity, 7, 12, "mid"@);
            let none = Seq::<Seq<char>>::empty();
            assert(none + seq![decimal(mid)] + none =~= seq![decimal(mid)]);
        }
    }
}

/// The `mid` values of a block.
pub open spec fn mids_of(block: MediaDescriptionView) -> Seq<Seq<char>> {
    values_of(block.attributes, "mid"@)
}

/// Whether each block has one `mid` and no two blocks have the same.
pub open spec fn distinct_mids(blocks: Seq<MediaDescriptionView>) -> bool {
    &&& forall|i: int| 0 <= i < blocks.len() ==> (#[trigger] mids_of(blocks[i])).len() == 1
    &&& forall|i: int, j: int|
        0 <= i < j < blocks.len() ==> #[trigger] mids_of(blocks[i]) != #[trigger] mids_of(
            blocks[j],
        )
}

/// Where each block has one `mid` and no two blocks have the same, this is
/// so after sources were added: each new block gets a `mid` that no block
/// has, the next unused one first and then the numbers that follow it.
pub proof fn lemma_mids_stay_distinct(blocks: Seq<MediaDescriptionView>, contents: Seq<ContentView>)
    requires
        distinct_mids(blocks),
        sources_fit(blocks, contents),
    ensures
        distinct_mids(with_sources(blocks, contents)),
        forall|k: int|
            blocks.len() <= k < with_sources(blocks, contents).len() ==> #[trigger] mids_of(
                with_sources(blocks, contents)[k],
            ) == seq![decimal((next_mid(blocks) + (k - blocks.len())) as nat)],
{
    let first = next_mid(blocks);
    let all = with_sources(blocks, contents);
    lemma_sources_follow(blocks, contents, first);
    assert forall|k: int| blocks.len() <= k < all.len() implies #[trigger] mids_of(all[k]) == seq![
        decimal((first + (k - blocks.len())) as nat),
    ] by {
        lemma_added_mids(blocks, contents, first, k);
    }
    assert forall|i: int| 0 <= i < all.len() implies (#[trigger] mids_of(all[i])).len() == 1 by {
        if i < blocks.len() {
            assert(all[i] == blocks[i]);
        }
    }
    assert forall|i: int, j: int| 0 <= i < j < all.len() implies #[trigger] mids_of(all[i])
        != #[trigger] mids_of(all[j]) by {
        if j < blocks.len() {
            assert(all[i] == blocks[i] && all[j] == blocks[j]);
        } else {
            let n = (first + (j - blocks.len())) as nat;
            assert(mids_of(all[j]) == seq![decimal(n)]);
            assert(n <= MID_LIMIT);
            lemma_decimal(n);
            lemma_decimal_read(n, MID_LIMIT as nat);
            if i < blocks.len() {
                assert(all[i] == blocks[i]);
                if mids_of(all[i]) == mids_of(all[j]) {
                    assert(mids_of(blocks[i])[0] == decimal(n));
                    lemma_next_mid(blocks, i, 0);
                }
            } else {
                let m = (first + (i - blocks.len())) as nat;
                assert(mids_of(all[i]) == seq![decimal(m)]);
                lemma_decimal(m);
                if mids_of(all[i]) == mids_of(all[j]) {
                    assert(seq![decimal(m)][0] == seq![decimal(n)][0]);
                }
            }
        }
    }
}

} // verus!
